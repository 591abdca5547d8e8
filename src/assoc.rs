//! The aggregator's associator: tracks from the tracker shards and
//! detections from the detector meet here; tracks get class labels by
//! vote, and detections that no track explains become stationary objects.
use vstd::prelude::*;
use crate::bbox::Bbox;
use itertools::Itertools;
use vstd::arithmetic::div_mod::{lemma_fundamental_div_mod, lemma_mod_pos_bound};

verus! {

/// Half the sampling period of a stationary series: the second box of each
/// window comes this many nanoseconds after the first.
pub const STATIONARY_STEP_NS: u64 = 33_333_333;

/// The window of a stationary series, in nanoseconds.
pub const STATIONARY_WINDOW_NS: u64 = 100_000_000;

/// Relies on `slice::sort_unstable`: the result is the same values in
/// ascending order.
#[verifier::external_body]
fn sort_starts(v: &mut Vec<u64>)
    ensures
        final(v)@.to_multiset() == old(v)@.to_multiset(),
        forall|i: int, j: int| 0 <= i <= j < final(v)@.len() ==> final(v)@[i] <= final(v)@[j],
{
    v.sort_unstable();
}

/// `x` occurs in `v` before any occurrence of `y`.
pub open spec fn first_before(v: Seq<u64>, x: u64, y: u64) -> bool {
    exists|a: int| 0 <= a < v.len() && v[a] == x && forall|b: int| 0 <= b <= a ==> #[trigger] v[b] != y
}

/// Relies on `itertools::Itertools::unique`: each value once, in the order
/// of its first occurrence.
#[verifier::external_body]
fn unique_values(v: &Vec<u64>) -> (r: Vec<u64>)
    ensures
        r@.no_duplicates(),
        forall|x: u64| r@.contains(x) <==> v@.contains(x),
        forall|i: int, j: int|
            0 <= i < j < r@.len() ==> #[trigger] first_before(v@, r@[i], r@[j]),
{
    v.iter().copied().unique().collect()
}

/// The number of times `c` occurs in `s`.
pub open spec fn occ(s: Seq<u32>, c: u32) -> nat
    decreases s.len(),
{
    if s.len() == 0 {
        0
    } else {
        occ(s.drop_last(), c) + if s.last() == c {
            1nat
        } else {
            0nat
        }
    }
}

/// Class `c` is kept for a track with the votes `votes`: it was voted for,
/// and either twice or more, or no class was voted for more than once.
pub open spec fn class_kept(votes: Seq<u32>, c: u32) -> bool {
    &&& occ(votes, c) >= 1
    &&& (occ(votes, c) >= 2 || forall|d: u32| #[trigger] occ(votes, d) <= 1)
}

proof fn lemma_occ_push(s: Seq<u32>, x: u32, c: u32)
    ensures
        occ(s.push(x), c) == occ(s, c) + if x == c {
            1nat
        } else {
            0nat
        },
{
    assert(s.push(x).drop_last() =~= s);
}

proof fn lemma_occ_contains(s: Seq<u32>, c: u32)
    ensures
        occ(s, c) >= 1 <==> s.contains(c),
    decreases s.len(),
{
    if s.len() > 0 {
        lemma_occ_contains(s.drop_last(), c);
        if s.drop_last().contains(c) {
            let k = choose|k: int| 0 <= k < s.drop_last().len() && s.drop_last()[k] == c;
            assert(s[k] == c);
        }
        if s.contains(c) && s.last() != c {
            let k = choose|k: int| 0 <= k < s.len() && s[k] == c;
            assert(s.drop_last()[k] == c);
        }
    }
}

/// The classes kept for a track from its votes: the most voted class
/// first; then, if some class has two votes or more, every class with two
/// votes or more, else every class voted for.
pub fn vote_classes(votes: &Vec<u32>) -> (r: Vec<u32>)
    ensures
        r@.no_duplicates(),
        forall|c: u32| r@.contains(c) <==> class_kept(votes@, c),
        votes@.len() > 0 ==> r@.len() > 0 && forall|d: u32| occ(votes@, r@[0]) >= #[trigger] occ(votes@, d),
{
    // Count the votes of each class, in the order the classes first occur.
    let mut table: Vec<(u32, u64)> = Vec::new();
    let mut i: usize = 0;
    while i < votes.len()
        invariant
            i <= votes@.len(),
            forall|x: int, y: int| 0 <= x < y < table@.len() ==> table@[x].0 != table@[y].0,
            forall|x: int|
                0 <= x < table@.len() ==> (#[trigger] table@[x]).1 == occ(
                    votes@.take(i as int),
                    table@[x].0,
                ) && table@[x].1 >= 1,
            forall|c: u32|
                occ(votes@.take(i as int), c) >= 1 ==> exists|x: int|
                    0 <= x < table@.len() && (#[trigger] table@[x]).0 == c,
            forall|x: int| 0 <= x < table@.len() ==> (#[trigger] table@[x]).1 <= i,
        decreases votes@.len() - i,
    {
        let c = votes[i];
        proof {
            assert(votes@.take(i + 1) =~= votes@.take(i as int).push(c));
            assert forall|d: u32| #[trigger] occ(votes@.take(i + 1), d) == occ(votes@.take(i as int), d)
                + if c == d {
                1nat
            } else {
                0nat
            } by {
                lemma_occ_push(votes@.take(i as int), c, d);
            }
        }
        let mut x: usize = 0;
        let mut pos: Option<usize> = None;
        while x < table.len()
            invariant
                x <= table@.len(),
                pos matches Some(p) ==> p < table@.len() && table@[p as int].0 == c,
                pos is None ==> forall|y: int| 0 <= y < x ==> (#[trigger] table@[y]).0 != c,
            decreases table@.len() - x,
        {
            if pos.is_none() && table[x].0 == c {
                pos = Some(x);
            }
            x += 1;
        }
        let ghost table0 = table@;
        match pos {
            Some(p) => {
                let n = table[p].1;
                table.set(p, (c, n + 1));
            },
            None => {
                table.push((c, 1));
            },
        }
        proof {
            assert forall|d: u32|
                #[trigger] occ(votes@.take(i + 1), d) >= 1 implies exists|x: int|
                    0 <= x < table@.len() && (#[trigger] table@[x]).0 == d by {
                if d == c {
                    match pos {
                        Some(p) => {
                            assert(table@[p as int].0 == d);
                        },
                        None => {
                            assert(table@[table@.len() - 1].0 == d);
                        },
                    }
                } else {
                    let x = choose|x: int| 0 <= x < table0.len() && (#[trigger] table0[x]).0 == d;
                    assert(table@[x].0 == d);
                }
            }
        }
        i += 1;
    }
    proof {
        assert(votes@.take(i as int) =~= votes@);
    }
    let mut r: Vec<u32> = Vec::new();
    if table.len() == 0 {
        proof {
            if votes@.len() > 0 {
                lemma_occ_contains(votes@, votes@[0]);
                assert(votes@.contains(votes@[0]));
            }
            assert forall|c: u32| !class_kept(votes@, c) by {
                if occ(votes@, c) >= 1 {
                    let x = choose|x: int| 0 <= x < table@.len() && (#[trigger] table@[x]).0 == c;
                }
            }
        }
        return r;
    }
    // The most voted class, the first of them on a tie.
    let mut best: usize = 0;
    let mut j: usize = 1;
    while j < table.len()
        invariant
            1 <= j <= table@.len(),
            best < j,
            forall|y: int| 0 <= y < j ==> (#[trigger] table@[y]).1 <= table@[best as int].1,
        decreases table@.len() - j,
    {
        if table[j].1 > table[best].1 {
            best = j;
        }
        j += 1;
    }
    let top = table[best].1;
    proof {
        assert forall|d: u32| #[trigger] occ(votes@, d) <= top by {
            if occ(votes@, d) >= 1 {
                let x = choose|x: int| 0 <= x < table@.len() && (#[trigger] table@[x]).0 == d;
            }
        }
    }
    r.push(table[best].0);
    let mut k: usize = 0;
    while k < table.len()
        invariant
            k <= table@.len(),
            0 <= best < table@.len(),
            top == table@[best as int].1,
            r@.len() >= 1,
            r@[0] == table@[best as int].0,
            r@.no_duplicates(),
            forall|x: int, y: int| 0 <= x < y < table@.len() ==> table@[x].0 != table@[y].0,
            forall|x: int|
                0 <= x < table@.len() ==> (#[trigger] table@[x]).1 == occ(votes@, table@[x].0)
                    && table@[x].1 >= 1,
            forall|c: u32|
                occ(votes@, c) >= 1 ==> exists|x: int|
                    0 <= x < table@.len() && (#[trigger] table@[x]).0 == c,
            forall|d: u32| #[trigger] occ(votes@, d) <= top,
            forall|y: int|
                0 <= y < r@.len() ==> exists|x: int|
                    0 <= x < table@.len() && table@[x].0 == #[trigger] r@[y] && (x == best || x < k)
                        && class_kept(votes@, r@[y]),
            forall|x: int|
                0 <= x < k && class_kept(votes@, #[trigger] table@[x].0) ==> r@.contains(
                    table@[x].0,
                ),
        decreases table@.len() - k,
    {
        let ghost r0 = r@;
        if k != best && (table[k].1 >= 2 || top == 1) {
            proof {
                assert forall|y: int| 0 <= y < r@.len() implies r@[y] != table@[k as int].0 by {
                    let x = choose|x: int|
                        0 <= x < table@.len() && table@[x].0 == #[trigger] r@[y] && (x == best
                            || x < k) && class_kept(votes@, r@[y]);
                }
            }
            r.push(table[k].0);
        }
        proof {
            if k == best {
                assert(r@[0] == table@[k as int].0);
            }
            assert(occ(votes@, table@[best as int].0) == top);
            assert forall|x: int|
                0 <= x < k + 1 && class_kept(votes@, #[trigger] table@[x].0) implies r@.contains(
                table@[x].0,
            ) by {
                if x < k {
                    let y = choose|y: int| 0 <= y < r0.len() && r0[y] == table@[x].0;
                    assert(r@[y] == r0[y]);
                } else if x == best {
                    assert(r@[0] == table@[x].0);
                } else {
                    assert(r@[r@.len() - 1] == table@[x].0);
                }
            }
            assert forall|y: int|
                0 <= y < r@.len() implies exists|x: int|
                    0 <= x < table@.len() && table@[x].0 == #[trigger] r@[y] && (x == best || x < k + 1)
                        && class_kept(votes@, r@[y]) by {
                if y < r0.len() {
                    assert(r@[y] == r0[y]);
                    let x = choose|x: int|
                        0 <= x < table@.len() && table@[x].0 == #[trigger] r0[y] && (x == best
                            || x < k) && class_kept(votes@, r0[y]);
                } else {
                    assert(r@[y] == table@[k as int].0);
                }
            }
        }
        k += 1;
    }
    proof {
        assert forall|c: u32| r@.contains(c) <==> class_kept(votes@, c) by {
            if class_kept(votes@, c) {
                let x = choose|x: int| 0 <= x < table@.len() && (#[trigger] table@[x]).0 == c;
            }
        }
    }
    r
}

/// The time stamps of a stationary series from `t` up to `end`: in each
/// window of `STATIONARY_WINDOW_NS` starting before `end`, its start and
/// `STATIONARY_STEP_NS` after it (stamps past `u64::MAX` are left out).
pub open spec fn series_stamps(t: u64, end: u64) -> Seq<u64>
    decreases end - t,
{
    if t >= end {
        Seq::empty()
    } else {
        let first = seq![t];
        let pair = if t <= u64::MAX - STATIONARY_STEP_NS {
            first.push((t + STATIONARY_STEP_NS) as u64)
        } else {
            first
        };
        if t <= u64::MAX - STATIONARY_WINDOW_NS && t + STATIONARY_WINDOW_NS < end {
            pair + series_stamps((t + STATIONARY_WINDOW_NS) as u64, end)
        } else {
            pair
        }
    }
}

/// `b` stamped with time `ts` and track `id`.
pub open spec fn stamped(b: Bbox, ts: u64, id: Option<u64>) -> Bbox {
    Bbox { timestamp: Some(ts), track_id: id, ..b }
}

/// An object seen by the detector again and again at about the same place
/// and never matched to a moving track.
#[derive(Clone, Copy, Debug)]
pub struct Stationary {
    pub range_start: u64,
    pub range_end: u64,
    pub start: u64,
    pub end: u64,
    pub bbox: Bbox,
    pub track_id: Option<u64>,
    pub class_id: u32,
}

impl Stationary {
    /// A stationary object first seen in detection `bbox` of shard
    /// `[range_start, range_end)`.
    pub fn new(range_start: u64, range_end: u64, bbox: Bbox) -> (r: Stationary)
        requires
            bbox.timestamp is Some,
            bbox.class_id is Some,
        ensures
            r.range_start == range_start,
            r.range_end == range_end,
            r.start == bbox.timestamp->0,
            r.end == bbox.timestamp->0,
            r.class_id == bbox.class_id->0,
            r.bbox == bbox,
            r.track_id is None,
    {
        Stationary {
            range_start,
            range_end,
            start: bbox.timestamp.unwrap(),
            end: bbox.timestamp.unwrap(),
            class_id: bbox.class_id.unwrap(),
            bbox,
            track_id: None,
        }
    }

    /// Extends the object to the time of detection `bbox`.
    pub fn update(&mut self, bbox: Bbox)
        requires
            bbox.timestamp is Some,
        ensures
            *final(self) == (Stationary { end: bbox.timestamp->0, ..*old(self) }),
    {
        self.end = bbox.timestamp.unwrap();
    }

    /// The object as a series of boxes: two per window from `start` to
    /// `end`, each with this object's track id.
    pub fn to_vec(&self) -> (r: Vec<Bbox>)
        ensures
            r@.len() == series_stamps(self.start, self.end).len(),
            forall|i: int|
                0 <= i < r@.len() ==> #[trigger] r@[i] == stamped(
                    self.bbox,
                    series_stamps(self.start, self.end)[i],
                    self.track_id,
                ),
    {
        let mut r: Vec<Bbox> = Vec::new();
        let ghost done: Seq<u64> = Seq::empty();
        let mut t = self.start;
        let mut more = true;
        while more && t < self.end
            invariant
                series_stamps(self.start, self.end) == done + if more {
                    series_stamps(t, self.end)
                } else {
                    Seq::empty()
                },
                !more ==> t < self.end,
                r@.len() == done.len(),
                forall|i: int|
                    0 <= i < r@.len() ==> #[trigger] r@[i] == stamped(self.bbox, done[i], self.track_id),
            decreases self.end - t + if more {
                1int
            } else {
                0int
            },
        {
            let ghost rest = series_stamps(t, self.end);
            r.push(Bbox { timestamp: Some(t), track_id: self.track_id, ..self.bbox });
            proof {
                done = done.push(t);
            }
            if t <= u64::MAX - STATIONARY_STEP_NS {
                r.push(Bbox { timestamp: Some(t + STATIONARY_STEP_NS), track_id: self.track_id, ..self.bbox });
                proof {
                    done = done.push((t + STATIONARY_STEP_NS) as u64);
                }
            }
            if t <= u64::MAX - STATIONARY_WINDOW_NS && t + STATIONARY_WINDOW_NS < self.end {
                proof {
                    assert(series_stamps(self.start, self.end) =~= done + series_stamps(
                        (t + STATIONARY_WINDOW_NS) as u64,
                        self.end,
                    ));
                }
                t = t + STATIONARY_WINDOW_NS;
            } else {
                proof {
                    assert(series_stamps(self.start, self.end) =~= done + Seq::<u64>::empty());
                }
                more = false;
            }
        }
        proof {
            if more {
                assert(series_stamps(t, self.end) =~= Seq::<u64>::empty());
            }
            assert(series_stamps(self.start, self.end) =~= done);
        }
        r
    }
}

/// An object seen once only (its series starts where it ends) gives no
/// boxes, and is never finished: retiring it drops it.
pub proof fn lemma_single_sighting_no_series(s: Stationary, ts: u64, maxage: u64)
    requires
        s.start == s.end,
    ensures
        series_stamps(s.start, s.end).len() == 0,
        stationary_done(seq![s], ts, maxage).len() == 0,
{
    assert(seq![s].drop_last() =~= Seq::<Stationary>::empty());
    assert(seq![s].last() == s);
    assert(stationary_done(Seq::<Stationary>::empty(), ts, maxage) == Seq::<Stationary>::empty());
}

/// Shard ranges are half-open: a detection stamped at its shard's range end
/// is not retired against that shard, and a track or a stationary object is
/// not settled by a time at its range end.
pub proof fn lemma_range_end_excluded(d: Detection, t: Track, s: Stationary, rs: u64, oldest: u64, maxage: u64)
    ensures
        !dnn_due(d, rs, d.bbox.timestamp->0, oldest),
        !track_due(t, t.range_end),
        !stationary_due(s, s.range_end, maxage),
{
}

/// The boxes of the series of `st`, each with its track id.
pub open spec fn series_rows(st: Stationary) -> Seq<Bbox> {
    let ts = series_stamps(st.start, st.end);
    Seq::new(ts.len(), |i: int| stamped(st.bbox, ts[i], st.track_id))
}

/// The series of the objects of `s`, one after the other.
pub open spec fn all_series_rows(s: Seq<Stationary>) -> Seq<Bbox>
    decreases s.len(),
{
    if s.len() == 0 {
        Seq::empty()
    } else {
        all_series_rows(s.drop_last()) + series_rows(s.last())
    }
}

/// A detection stamped at the range end of every track with id `id` never
/// votes for that id: ranges are half-open.
pub proof fn lemma_range_end_no_vote(tracks: Seq<Track>, id: u64, ts: u64)
    requires
        forall|e: int|
            0 <= e < tracks.len() && track_id_of(#[trigger] tracks[e]) == id ==> tracks[e].range_end
                == ts,
    ensures
        !vote_target(tracks, id, ts),
{
}

/// The shard ranges of the sorted shard starts `s`: each distinct start
/// with the next distinct start, the last with `u64::MAX`.
pub open spec fn ranges_of(s: Seq<u64>) -> Seq<(u64, u64)>
    decreases s.len(),
{
    if s.len() == 0 {
        Seq::empty()
    } else if s.len() == 1 {
        seq![(s[0], u64::MAX)]
    } else if s[0] == s[1] {
        ranges_of(s.drop_first())
    } else {
        seq![(s[0], s[1])] + ranges_of(s.drop_first())
    }
}

/// Decides the overlaps that association needs; the geometry is in floating
/// point, with the thresholds and the scale factor of the deployment.
pub trait Overlap {
    /// Whether the track box `trk`, scaled about its centre, overlaps the
    /// detection `det` enough to take its class: by an IoU at least the
    /// moving threshold, or above it when `strict`.
    fn track_matches(&self, trk: &Bbox, det: &Bbox, strict: bool) -> bool;

    /// Among `cands`, the index of the box with the largest IoU against
    /// `det`, if that IoU reaches the stationary threshold.
    fn best_stationary(&self, cands: &Vec<Bbox>, det: &Bbox) -> Option<usize>;
}

/// Why the associator refused a message.
#[derive(Clone, Copy, Debug, PartialEq, Eq, Structural)]
pub enum AssocError {
    /// A track names a shard whose start was never registered.
    UnknownShard,
    /// A track is empty, has a box without a time stamp, has no track id on
    /// its first box, mixes ids, or goes back in time.
    MalformedTrack,
    /// A detection has no time stamp or no class.
    MalformedDetection,
    /// No fresh track ids are left for the stationary objects.
    IdsExhausted,
}

/// A finished track of one shard.
#[derive(Clone, Debug)]
pub struct Track {
    pub range_start: u64,
    pub range_end: u64,
    pub bboxes: Vec<Bbox>,
}

/// A detection waiting for its shard's tracks, and whether a track took
/// its class.
#[derive(Clone, Copy, Debug)]
pub struct Detection {
    pub matched: bool,
    pub bbox: Bbox,
}

/// A track as the associator accepts it: non-empty, every box stamped in
/// time order, all with the first box's track id.
pub open spec fn track_ok(b: Seq<Bbox>) -> bool {
    &&& b.len() > 0
    &&& b[0].track_id is Some
    &&& forall|i: int|
        0 <= i < b.len() ==> (#[trigger] b[i]).timestamp is Some && b[i].track_id == b[0].track_id
    &&& forall|i: int, j: int|
        0 <= i <= j < b.len() ==> (#[trigger] b[i]).timestamp->0 <= (#[trigger] b[j]).timestamp->0
}

pub open spec fn first_ts(b: Seq<Bbox>) -> u64 {
    b[0].timestamp->0
}

pub open spec fn last_ts(b: Seq<Bbox>) -> u64 {
    b.last().timestamp->0
}

/// A detection as the associator accepts it: stamped and classified.
pub open spec fn det_ok(b: Bbox) -> bool {
    b.timestamp is Some && b.class_id is Some
}

/// Row `r` lies in the time span of track `b` and carries its id.
pub open spec fn in_span(r: Bbox, b: Seq<Bbox>) -> bool {
    &&& r.timestamp is Some
    &&& first_ts(b) <= r.timestamp->0 <= last_ts(b)
    &&& r.track_id == b[0].track_id
}

/// The stationary object that detection `det` of shard `[rs, re)` starts.
pub open spec fn fresh_stationary(rs: u64, re: u64, det: Bbox) -> Stationary {
    Stationary {
        range_start: rs,
        range_end: re,
        start: det.timestamp->0,
        end: det.timestamp->0,
        bbox: det,
        track_id: None,
        class_id: det.class_id->0,
    }
}

/// Entry `k` of the stationary objects `n` comes from `o`: it is an entry of
/// `o`, or one started by a retired, never matched detection of `dets` from
/// shard `[rs, re)`; its end is the one it had, or the time of such a
/// detection of its class.
pub open spec fn stationary_from(
    n: Seq<Stationary>,
    k: int,
    o: Seq<Stationary>,
    dets: Seq<Detection>,
    rs: u64,
    re: u64,
    oldest: u64,
) -> bool {
    &&& {
        ||| (k < o.len() && n[k] == Stationary { end: n[k].end, ..o[k] })
        ||| (k >= o.len() && exists|x: int|
            0 <= x < dets.len() && dnn_due(dets[x], rs, re, oldest) && !dets[x].matched && n[k]
                == (Stationary { end: n[k].end, ..fresh_stationary(rs, re, #[trigger] dets[x].bbox) }))
    }
    &&& ((k < o.len() && n[k].end == o[k].end) || (k >= o.len() && n[k].end == n[k].start)
        || extended_by(n[k], dets, rs, re, oldest))
}

/// Object `e` last got its end from a retired, never matched detection of
/// `dets` of its shard and class, stamped at that end.
pub open spec fn extended_by(e: Stationary, dets: Seq<Detection>, rs: u64, re: u64, oldest: u64) -> bool {
    exists|x: int|
        0 <= x < dets.len() && dnn_due(#[trigger] dets[x], rs, re, oldest) && !dets[x].matched
            && dets[x].bbox.timestamp->0 == e.end && dets[x].bbox.class_id->0 == e.class_id
            && e.range_start == rs
}

/// Some object of `st` belongs to shard `rs` and has class `class_id`.
pub open spec fn has_stationary(st: Seq<Stationary>, rs: u64, class_id: u32) -> bool {
    exists|k: int| 0 <= k < st.len() && (#[trigger] st[k]).range_start == rs && st[k].class_id == class_id
}

/// Whether `trk` is a track the associator accepts.
pub fn check_track(trk: &Vec<Bbox>) -> (r: bool)
    ensures
        r == track_ok(trk@),
{
    if trk.len() == 0 {
        return false;
    }
    let id = trk[0].track_id;
    if id.is_none() {
        return false;
    }
    let mut i: usize = 0;
    while i < trk.len()
        invariant
            0 < trk@.len(),
            i <= trk@.len(),
            id == trk@[0].track_id,
            id is Some,
            forall|k: int|
                0 <= k < i ==> (#[trigger] trk@[k]).timestamp is Some && trk@[k].track_id == id,
            forall|a: int, b: int|
                0 <= a <= b < i ==> (#[trigger] trk@[a]).timestamp->0 <= (#[trigger] trk@[b]).timestamp->0,
        decreases trk@.len() - i,
    {
        let b = trk[i];
        if b.timestamp.is_none() || b.track_id != id {
            return false;
        }
        if i > 0 {
            let prev = trk[i - 1].timestamp.unwrap();
            if b.timestamp.unwrap() < prev {
                return false;
            }
            proof {
                assert forall|a: int| 0 <= a <= i implies (#[trigger] trk@[a]).timestamp->0
                    <= trk@[i as int].timestamp->0 by {
                    if a < i {
                        assert(trk@[a].timestamp->0 <= trk@[i - 1].timestamp->0);
                    }
                }
            }
        }
        i += 1;
    }
    true
}

/// Whether every box of `bboxes` is a detection the associator accepts.
pub fn check_detections(bboxes: &Vec<Bbox>) -> (r: bool)
    ensures
        r == forall|i: int| 0 <= i < bboxes@.len() ==> det_ok(#[trigger] bboxes@[i]),
{
    let mut i: usize = 0;
    while i < bboxes.len()
        invariant
            i <= bboxes@.len(),
            forall|k: int| 0 <= k < i ==> det_ok(#[trigger] bboxes@[k]),
        decreases bboxes@.len() - i,
    {
        if bboxes[i].timestamp.is_none() || bboxes[i].class_id.is_none() {
            return false;
        }
        i += 1;
    }
    true
}

/// The box of `trk` stamped with time `ts`, the first one if several are.
fn box_at(trk: &Vec<Bbox>, ts: u64) -> (r: Option<Bbox>)
    ensures
        r matches Some(b) ==> exists|k: int| 0 <= k < trk@.len() && #[trigger] trk@[k] == b && b.timestamp == Some(ts),
{
    let mut i: usize = 0;
    while i < trk.len()
        invariant
            i <= trk@.len(),
        decreases trk@.len() - i,
    {
        if trk[i].timestamp == Some(ts) {
            return Some(trk[i]);
        }
        i += 1;
    }
    None
}

/// Row `r` comes from a track of `s` that is due at `ts`, and lies in that
/// track's span with its id.
pub open spec fn from_due_track(r: Bbox, s: Seq<Track>, ts: u64) -> bool {
    exists|x: int| 0 <= x < s.len() && track_due(s[x], ts) && in_span(r, #[trigger] s[x].bboxes@)
}

/// Each box of `b` with each class of `cl`, class by class.
pub open spec fn cross_rows(b: Seq<Bbox>, cl: Seq<u32>) -> Seq<Bbox> {
    Seq::new(
        cl.len() * b.len(),
        |y: int| Bbox { class_id: Some(cl[y / b.len() as int]), ..b[y % b.len() as int] },
    )
}

/// The rows of the tracks `ds`, the `k`-th with the classes `cls[k]`.
pub open spec fn all_cross_rows(ds: Seq<Track>, cls: Seq<Seq<u32>>) -> Seq<Bbox>
    decreases ds.len(),
{
    if ds.len() == 0 || cls.len() == 0 {
        Seq::empty()
    } else {
        all_cross_rows(ds.drop_last(), cls.drop_last()) + cross_rows(ds.last().bboxes@, cls.last())
    }
}

/// `cl` is what `vote_classes` returns for the votes `votes`.
pub open spec fn classes_for(votes: Seq<u32>, cl: Seq<u32>) -> bool {
    &&& cl.no_duplicates()
    &&& forall|c: u32| cl.contains(c) <==> class_kept(votes, c)
    &&& votes.len() > 0 ==> cl.len() > 0 && forall|d: u32| occ(votes, cl[0]) >= #[trigger] occ(votes, d)
}

/// The track id of track `t` (that of its first box).
pub open spec fn track_id_of(t: Track) -> u64 {
    t.bboxes@[0].track_id->0
}

/// One of the first `k` tracks of `ds` has id `id`.
pub open spec fn id_taken(ds: Seq<Track>, k: int, id: u64) -> bool {
    exists|j: int| 0 <= j < k && track_id_of(#[trigger] ds[j]) == id
}

/// The votes the `k`-th track of `ds` finds when it is written out: none if
/// an earlier track of `ds` with its id took them.
pub open spec fn votes_at(v0: Seq<(u64, u32)>, ds: Seq<Track>, k: int) -> Seq<u32> {
    if id_taken(ds, k, track_id_of(ds[k])) {
        Seq::empty()
    } else {
        votes_of(v0, track_id_of(ds[k]))
    }
}

/// The tracks of `s` due at `ts`, in order.
pub open spec fn tracks_due(s: Seq<Track>, ts: u64) -> Seq<Track>
    decreases s.len(),
{
    if s.len() == 0 {
        Seq::empty()
    } else if track_due(s.last(), ts) {
        tracks_due(s.drop_last(), ts).push(s.last())
    } else {
        tracks_due(s.drop_last(), ts)
    }
}

/// Class `c` is that of a detection of `dnns` stamped within the span of
/// the track `trk`.
pub open spec fn voted_in_span(dnns: Seq<Detection>, trk: Seq<Bbox>, c: u32) -> bool {
    exists|i: int|
        0 <= i < dnns.len() && first_ts(trk) <= (#[trigger] dnns[i]).bbox.timestamp->0 <= last_ts(trk)
            && dnns[i].bbox.class_id->0 == c
}

/// A vote at detection time `ts` may go to track id `id`: some track of
/// `tracks` with that id belongs to a shard whose range holds `ts` and
/// starts no later than `ts`.
pub open spec fn vote_target(tracks: Seq<Track>, id: u64, ts: u64) -> bool {
    exists|e: int|
        0 <= e < tracks.len() && track_id_of(#[trigger] tracks[e]) == id && tracks[e].range_start
            <= ts && ts < tracks[e].range_end && first_ts(tracks[e].bboxes@) <= ts
}

/// The votes `v` end with one run per detection of `ds`, the run of
/// `ds[k]` from `lens[k]` to `lens[k + 1]`, all of its class and each for a
/// track of `tracks` that may take it: a detection is matched exactly when
/// its run is not empty.
pub open spec fn votes_split(
    lens: Seq<int>,
    v: Seq<(u64, u32)>,
    ds: Seq<Detection>,
    tracks: Seq<Track>,
) -> bool {
    &&& lens.len() == ds.len() + 1
    &&& 0 <= lens[0]
    &&& lens[ds.len() as int] == v.len()
    &&& forall|k: int| 0 <= k <= ds.len() ==> 0 <= #[trigger] lens[k] <= v.len()
    &&& forall|k: int|
        0 <= k < ds.len() ==> lens[k] <= lens[k + 1] && ((#[trigger] ds[k]).matched <==> lens[k]
            < lens[k + 1]) && forall|x: int|
            lens[k] <= x < lens[k + 1] ==> (#[trigger] v[x]).1 == ds[k].bbox.class_id->0
                && vote_target(tracks, v[x].0, ds[k].bbox.timestamp->0)
}

/// Row `r` lies in the span of one of the tracks `s` and carries its id.
pub open spec fn from_track(r: Bbox, s: Seq<Track>) -> bool {
    exists|x: int| 0 <= x < s.len() && in_span(r, #[trigger] s[x].bboxes@)
}

/// The votes recorded for track `id`, in order.
pub open spec fn votes_of(t: Seq<(u64, u32)>, id: u64) -> Seq<u32>
    decreases t.len(),
{
    if t.len() == 0 {
        Seq::empty()
    } else if t.last().0 == id {
        votes_of(t.drop_last(), id).push(t.last().1)
    } else {
        votes_of(t.drop_last(), id)
    }
}

/// Track `t` can be written out at detection time `ts`: `ts` falls in its
/// shard and after its last box.
pub open spec fn track_due(t: Track, ts: u64) -> bool {
    t.range_start <= ts && ts < t.range_end && last_ts(t.bboxes@) < ts
}

pub open spec fn tracks_kept(s: Seq<Track>, ts: u64) -> Seq<Track>
    decreases s.len(),
{
    if s.len() == 0 {
        Seq::empty()
    } else if track_due(s.last(), ts) {
        tracks_kept(s.drop_last(), ts)
    } else {
        tracks_kept(s.drop_last(), ts).push(s.last())
    }
}

/// Detection `d` of shard `[rs, re)` can no longer meet a track: it is
/// older than `oldest`, the shard's oldest live track.
pub open spec fn dnn_due(d: Detection, rs: u64, re: u64, oldest: u64) -> bool {
    let ts = d.bbox.timestamp->0;
    rs <= ts && ts < re && ts < oldest
}

pub open spec fn dnns_kept(s: Seq<Detection>, rs: u64, re: u64, oldest: u64) -> Seq<Detection>
    decreases s.len(),
{
    if s.len() == 0 {
        Seq::empty()
    } else if dnn_due(s.last(), rs, re, oldest) {
        dnns_kept(s.drop_last(), rs, re, oldest)
    } else {
        dnns_kept(s.drop_last(), rs, re, oldest).push(s.last())
    }
}

/// Stationary object `s` has gone unseen for longer than `maxage` at
/// detection time `ts` of its shard.
pub open spec fn stationary_due(s: Stationary, ts: u64, maxage: u64) -> bool {
    s.range_start <= ts && ts < s.range_end && maxage + s.end < ts
}

pub open spec fn stationary_kept(s: Seq<Stationary>, ts: u64, maxage: u64) -> Seq<Stationary>
    decreases s.len(),
{
    if s.len() == 0 {
        Seq::empty()
    } else if stationary_due(s.last(), ts, maxage) {
        stationary_kept(s.drop_last(), ts, maxage)
    } else {
        stationary_kept(s.drop_last(), ts, maxage).push(s.last())
    }
}

/// The objects of `s` seen at two times or more, in order.
pub open spec fn seen_twice(s: Seq<Stationary>) -> Seq<Stationary>
    decreases s.len(),
{
    if s.len() == 0 {
        Seq::empty()
    } else if s.last().start != s.last().end {
        seen_twice(s.drop_last()).push(s.last())
    } else {
        seen_twice(s.drop_last())
    }
}

/// The due objects of `s` that go on to be written out: those seen at two
/// times or more (a series that starts where it ends was seen once).
pub open spec fn stationary_done(s: Seq<Stationary>, ts: u64, maxage: u64) -> Seq<Stationary>
    decreases s.len(),
{
    if s.len() == 0 {
        Seq::empty()
    } else if stationary_due(s.last(), ts, maxage) && s.last().start != s.last().end {
        stationary_done(s.drop_last(), ts, maxage).push(s.last())
    } else {
        stationary_done(s.drop_last(), ts, maxage)
    }
}

pub struct Associator {
    /// Each shard's range `[start, end)`, by start.
    pub tracker_range: Vec<(u64, u64)>,
    pub tracks: Vec<Track>,
    pub dnns: Vec<Detection>,
    pub stationary: Vec<Stationary>,
    pub finalized_stationary: Vec<Stationary>,
    /// Class votes as `(track id, class id)`, in the order they were cast.
    pub track2class: Vec<(u64, u32)>,
    /// In nanoseconds.
    pub stationary_maxage: u64,
    pub max_track_id: u64,
    /// Rows to write: every track box received.
    pub track_rows: Vec<Bbox>,
    /// Rows to write: every detection received.
    pub dnn_rows: Vec<Bbox>,
    /// Rows to write: each finished track's boxes, once per kept class.
    pub assoc_rows: Vec<Bbox>,
    /// Rows to write: the series of the stationary objects.
    pub stationary_rows: Vec<Bbox>,
}

proof fn lemma_tracks_kept_from(s: Seq<Track>, ts: u64, k: int)
    requires
        0 <= k < tracks_kept(s, ts).len(),
    ensures
        exists|x: int| 0 <= x < s.len() && s[x] == tracks_kept(s, ts)[k],
    decreases s.len(),
{
    let p = tracks_kept(s.drop_last(), ts);
    if k < p.len() {
        lemma_tracks_kept_from(s.drop_last(), ts, k);
        let x = choose|x: int| 0 <= x < s.drop_last().len() && s.drop_last()[x] == p[k];
        assert(s[x] == s.drop_last()[x]);
    } else {
        assert(s[s.len() - 1] == tracks_kept(s, ts)[k]);
    }
}

proof fn lemma_tracks_kept_not_due(s: Seq<Track>, ts: u64, k: int)
    requires
        0 <= k < tracks_kept(s, ts).len(),
    ensures
        !track_due(tracks_kept(s, ts)[k], ts),
    decreases s.len(),
{
    let p = tracks_kept(s.drop_last(), ts);
    if k < p.len() {
        lemma_tracks_kept_not_due(s.drop_last(), ts, k);
    }
}

proof fn lemma_dnns_kept_not_due(s: Seq<Detection>, rs: u64, re: u64, oldest: u64, k: int)
    requires
        0 <= k < dnns_kept(s, rs, re, oldest).len(),
    ensures
        !dnn_due(dnns_kept(s, rs, re, oldest)[k], rs, re, oldest),
    decreases s.len(),
{
    let p = dnns_kept(s.drop_last(), rs, re, oldest);
    if k < p.len() {
        lemma_dnns_kept_not_due(s.drop_last(), rs, re, oldest, k);
    }
}

proof fn lemma_stationary_kept_facts(s: Seq<Stationary>, ts: u64, maxage: u64, k: int)
    requires
        0 <= k < stationary_kept(s, ts, maxage).len(),
    ensures
        !stationary_due(stationary_kept(s, ts, maxage)[k], ts, maxage),
        exists|x: int| 0 <= x < s.len() && s[x] == stationary_kept(s, ts, maxage)[k],
    decreases s.len(),
{
    let p = stationary_kept(s.drop_last(), ts, maxage);
    if k < p.len() {
        lemma_stationary_kept_facts(s.drop_last(), ts, maxage, k);
        let x = choose|x: int| 0 <= x < s.drop_last().len() && s.drop_last()[x] == p[k];
        assert(s[x] == s.drop_last()[x]);
    } else {
        assert(s[s.len() - 1] == stationary_kept(s, ts, maxage)[k]);
    }
}

proof fn lemma_dnns_kept_from(s: Seq<Detection>, rs: u64, re: u64, oldest: u64, k: int)
    requires
        0 <= k < dnns_kept(s, rs, re, oldest).len(),
    ensures
        exists|x: int| 0 <= x < s.len() && s[x] == dnns_kept(s, rs, re, oldest)[k],
    decreases s.len(),
{
    let p = dnns_kept(s.drop_last(), rs, re, oldest);
    if k < p.len() {
        lemma_dnns_kept_from(s.drop_last(), rs, re, oldest, k);
        let x = choose|x: int| 0 <= x < s.drop_last().len() && s.drop_last()[x] == p[k];
        assert(s[x] == s.drop_last()[x]);
    } else {
        assert(s[s.len() - 1] == dnns_kept(s, rs, re, oldest)[k]);
    }
}

impl Associator {
    /// Held tracks and detections are well formed, the shard starts
    /// increase, and `max_track_id` bounds every track row's id.
    pub open spec fn wf(&self) -> bool {
        &&& forall|i: int|
            0 <= i < self.tracks@.len() ==> track_ok((#[trigger] self.tracks@[i]).bboxes@)
        &&& forall|i: int| 0 <= i < self.dnns@.len() ==> det_ok((#[trigger] self.dnns@[i]).bbox)
        &&& forall|i: int|
            0 <= i < self.track_rows@.len() ==> (#[trigger] self.track_rows@[i]).track_id is Some
                && self.track_rows@[i].track_id->0 <= self.max_track_id
        &&& forall|i: int, j: int|
            0 <= i < j < self.tracker_range@.len() ==> (#[trigger] self.tracker_range@[i]).0
                < (#[trigger] self.tracker_range@[j]).0
    }

    /// An associator that lets a stationary object go unseen for
    /// `stationary_maxage` seconds.
    pub fn new(stationary_maxage: u64) -> (r: Associator)
        requires
            stationary_maxage <= u64::MAX / 1_000_000_000,
        ensures
            r.wf(),
            r.stationary_maxage == stationary_maxage * 1_000_000_000,
            r.max_track_id == 0,
            r.tracker_range@.len() == 0,
            r.tracks@.len() == 0,
            r.dnns@.len() == 0,
            r.stationary@.len() == 0,
            r.finalized_stationary@.len() == 0,
            r.track2class@.len() == 0,
            r.track_rows@.len() == 0,
            r.dnn_rows@.len() == 0,
            r.assoc_rows@.len() == 0,
            r.stationary_rows@.len() == 0,
    {
        Associator {
            tracker_range: Vec::new(),
            tracks: Vec::new(),
            dnns: Vec::new(),
            stationary: Vec::new(),
            finalized_stationary: Vec::new(),
            track2class: Vec::new(),
            stationary_maxage: stationary_maxage * 1_000_000_000,
            max_track_id: 0,
            track_rows: Vec::new(),
            dnn_rows: Vec::new(),
            assoc_rows: Vec::new(),
            stationary_rows: Vec::new(),
        }
    }

    /// Registers the shards by their starts: each range runs from a start
    /// to the next larger one, the last to `u64::MAX`.
    pub fn set_ranges(&mut self, starts: Vec<u64>)
        requires
            old(self).wf(),
        ensures
            final(self).wf(),
            exists|s: Seq<u64>|
                {
                    &&& s.to_multiset() == starts@.to_multiset()
                    &&& forall|i: int, j: int| 0 <= i <= j < s.len() ==> s[i] <= s[j]
                    &&& final(self).tracker_range@ == ranges_of(s)
                },
            final(self).tracks == old(self).tracks,
            final(self).dnns == old(self).dnns,
            final(self).stationary == old(self).stationary,
            final(self).finalized_stationary == old(self).finalized_stationary,
            final(self).track2class == old(self).track2class,
            final(self).stationary_maxage == old(self).stationary_maxage,
            final(self).max_track_id == old(self).max_track_id,
            final(self).track_rows == old(self).track_rows,
            final(self).dnn_rows == old(self).dnn_rows,
            final(self).assoc_rows == old(self).assoc_rows,
            final(self).stationary_rows == old(self).stationary_rows,
    {
        let mut s = starts;
        sort_starts(&mut s);
        let mut out: Vec<(u64, u64)> = Vec::new();
        let mut i: usize = 0;
        proof {
            assert(s@.skip(0) =~= s@);
            assert(out@ + ranges_of(s@) =~= ranges_of(s@));
        }
        while i < s.len()
            invariant
                i <= s@.len(),
                forall|a: int, b: int| 0 <= a <= b < s@.len() ==> s@[a] <= s@[b],
                ranges_of(s@) == out@ + ranges_of(s@.skip(i as int)),
                forall|a: int, b: int|
                    0 <= a < b < out@.len() ==> (#[trigger] out@[a]).0 < (#[trigger] out@[b]).0,
                forall|a: int| 0 <= a < out@.len() ==> (#[trigger] out@[a]).0 < s@[i as int] || i
                    == s@.len(),
            decreases s@.len() - i,
        {
            let ghost rest = s@.skip(i as int);
            proof {
                assert(rest.drop_first() =~= s@.skip(i + 1));
                assert(rest[0] == s@[i as int]);
            }
            if i + 1 < s.len() {
                proof {
                    assert(rest[1] == s@[i + 1]);
                }
                if s[i] != s[i + 1] {
                    out.push((s[i], s[i + 1]));
                    proof {
                        assert(ranges_of(rest) == seq![(s@[i as int], s@[i + 1])] + ranges_of(
                            rest.drop_first(),
                        ));
                        assert(out@ + ranges_of(s@.skip(i + 1)) =~= out@.drop_last() + (seq![
                            (s@[i as int], s@[i + 1]),
                        ] + ranges_of(s@.skip(i + 1))));
                    }
                }
            } else {
                out.push((s[i], u64::MAX));
                proof {
                    assert(s@.skip(i + 1) =~= Seq::<u64>::empty());
                    assert(ranges_of(s@.skip(i + 1)) =~= Seq::<(u64, u64)>::empty());
                    assert(ranges_of(rest) =~= seq![(s@[i as int], u64::MAX)]);
                    assert(out@ + ranges_of(s@.skip(i + 1)) =~= out@);
                }
            }
            i += 1;
        }
        proof {
            assert(s@.skip(i as int) =~= Seq::<u64>::empty());
            assert(out@ + ranges_of(s@.skip(i as int)) =~= out@);
        }
        self.tracker_range = out;
    }

    /// The end of the range of the shard that starts at `range_start`.
    pub fn range_end_of(&self, range_start: u64) -> (r: Option<u64>)
        ensures
            match r {
                Some(e) => exists|i: int|
                    0 <= i < self.tracker_range@.len() && #[trigger] self.tracker_range@[i] == (
                        range_start,
                        e,
                    ),
                None => forall|i: int|
                    0 <= i < self.tracker_range@.len() ==> (#[trigger] self.tracker_range@[i]).0
                        != range_start,
            },
    {
        let mut i: usize = 0;
        while i < self.tracker_range.len()
            invariant
                i <= self.tracker_range@.len(),
                forall|k: int| 0 <= k < i ==> (#[trigger] self.tracker_range@[k]).0 != range_start,
            decreases self.tracker_range@.len() - i,
        {
            if self.tracker_range[i].0 == range_start {
                return Some(self.tracker_range[i].1);
            }
            i += 1;
        }
        None
    }

    /// Removes and returns the votes of track `id`.
    fn take_votes(&mut self, id: u64) -> (r: Vec<u32>)
        ensures
            r@ == votes_of(old(self).track2class@, id),
            votes_of(final(self).track2class@, id) == Seq::<u32>::empty(),
            forall|other: u64|
                other != id ==> #[trigger] votes_of(final(self).track2class@, other) == votes_of(
                    old(self).track2class@,
                    other,
                ),
            final(self).tracker_range == old(self).tracker_range,
            final(self).tracks == old(self).tracks,
            final(self).dnns == old(self).dnns,
            final(self).stationary == old(self).stationary,
            final(self).finalized_stationary == old(self).finalized_stationary,
            final(self).stationary_maxage == old(self).stationary_maxage,
            final(self).max_track_id == old(self).max_track_id,
            final(self).track_rows == old(self).track_rows,
            final(self).dnn_rows == old(self).dnn_rows,
            final(self).assoc_rows == old(self).assoc_rows,
            final(self).stationary_rows == old(self).stationary_rows,
    {
        let ghost t0 = self.track2class@;
        let mut rest: Vec<(u64, u32)> = Vec::new();
        let mut r: Vec<u32> = Vec::new();
        let mut i: usize = 0;
        while i < self.track2class.len()
            invariant
                i <= t0.len(),
                self.track2class@ == t0,
                r@ == votes_of(t0.take(i as int), id),
                votes_of(rest@, id) == Seq::<u32>::empty(),
                forall|other: u64|
                    other != id ==> #[trigger] votes_of(rest@, other) == votes_of(
                        t0.take(i as int),
                        other,
                    ),
            decreases t0.len() - i,
        {
            let e = self.track2class[i];
            proof {
                assert(t0.take(i + 1).drop_last() =~= t0.take(i as int));
                assert(t0.take(i + 1).last() == e);
                assert(rest@.push(e).drop_last() =~= rest@);
            }
            let ghost rest0 = rest@;
            if e.0 == id {
                r.push(e.1);
            } else {
                rest.push(e);
            }
            proof {
                assert forall|other: u64|
                    other != id implies #[trigger] votes_of(rest@, other) == votes_of(
                    t0.take(i + 1),
                    other,
                ) by {
                    assert(votes_of(t0.take(i + 1), other) == if e.0 == other {
                        votes_of(t0.take(i as int), other).push(e.1)
                    } else {
                        votes_of(t0.take(i as int), other)
                    });
                    assert(votes_of(rest0, other) == votes_of(t0.take(i as int), other));
                    if e.0 != id {
                        assert(rest@.drop_last() =~= rest0);
                        assert(rest@.last() == e);
                        assert(votes_of(rest@, other) == if e.0 == other {
                            votes_of(rest0, other).push(e.1)
                        } else {
                            votes_of(rest0, other)
                        });
                    } else {
                        assert(rest@ == rest0);
                    }
                }
                if e.0 != id {
                    assert(rest@.drop_last() =~= rest0);
                }
            }
            i += 1;
        }
        proof {
            assert(t0.take(i as int) =~= t0);
        }
        self.track2class = rest;
        r
    }

    /// Appends each box of `bboxes` with each class of `classes`, class by
    /// class.
    fn emit_assoc(&mut self, bboxes: &Vec<Bbox>, classes: &Vec<u32>)
        requires
            track_ok(bboxes@),
        ensures
            final(self).assoc_rows@.len() == old(self).assoc_rows@.len() + classes@.len()
                * bboxes@.len(),
            final(self).assoc_rows@ == old(self).assoc_rows@ + cross_rows(bboxes@, classes@),
            final(self).assoc_rows@.subrange(0, old(self).assoc_rows@.len() as int)
                == old(self).assoc_rows@,
            forall|k: int, m: int|
                0 <= k < classes@.len() && 0 <= m < bboxes@.len() ==> #[trigger] final(self).assoc_rows@[old(self).assoc_rows@.len() + k * bboxes@.len() + m] == (Bbox {
                    class_id: Some(classes@[k]),
                    ..bboxes@[m]
                }),
            forall|y: int|
                old(self).assoc_rows@.len() <= y < final(self).assoc_rows@.len() ==> in_span(
                    #[trigger] final(self).assoc_rows@[y],
                    bboxes@,
                ),
            final(self).tracker_range == old(self).tracker_range,
            final(self).tracks == old(self).tracks,
            final(self).dnns == old(self).dnns,
            final(self).stationary == old(self).stationary,
            final(self).finalized_stationary == old(self).finalized_stationary,
            final(self).track2class == old(self).track2class,
            final(self).stationary_maxage == old(self).stationary_maxage,
            final(self).max_track_id == old(self).max_track_id,
            final(self).track_rows == old(self).track_rows,
            final(self).dnn_rows == old(self).dnn_rows,
            final(self).stationary_rows == old(self).stationary_rows,
    {
        let ghost a0 = self.assoc_rows@;
        let n = bboxes.len();
        let mut k: usize = 0;
        while k < classes.len()
            invariant
                k <= classes@.len(),
                n == bboxes@.len(),
                track_ok(bboxes@),
                a0 == old(self).assoc_rows@,
                self.assoc_rows@.len() == a0.len() + k * n,
                self.assoc_rows@.subrange(0, a0.len() as int) == a0,
                forall|kk: int, m: int|
                    0 <= kk < k && 0 <= m < n ==> #[trigger] self.assoc_rows@[a0.len() + kk * n + m]
                        == (Bbox { class_id: Some(classes@[kk]), ..bboxes@[m] }),
                forall|y: int|
                    a0.len() <= y < self.assoc_rows@.len() ==> in_span(
                        #[trigger] self.assoc_rows@[y],
                        bboxes@,
                    ),
                self.tracker_range == old(self).tracker_range,
                self.tracks == old(self).tracks,
                self.dnns == old(self).dnns,
                self.stationary == old(self).stationary,
                self.finalized_stationary == old(self).finalized_stationary,
                self.track2class == old(self).track2class,
                self.stationary_maxage == old(self).stationary_maxage,
                self.max_track_id == old(self).max_track_id,
                self.track_rows == old(self).track_rows,
                self.dnn_rows == old(self).dnn_rows,
                self.stationary_rows == old(self).stationary_rows,
            decreases classes@.len() - k,
        {
            let c = classes[k];
            let mut m: usize = 0;
            while m < n
                invariant
                    k < classes@.len(),
                    c == classes@[k as int],
                    m <= n,
                    n == bboxes@.len(),
                    track_ok(bboxes@),
                    self.assoc_rows@.len() == a0.len() + k * n + m,
                    self.assoc_rows@.subrange(0, a0.len() as int) == a0,
                    forall|kk: int, mm: int|
                        0 <= kk < k && 0 <= mm < n ==> #[trigger] self.assoc_rows@[a0.len() + kk * n
                            + mm] == (Bbox { class_id: Some(classes@[kk]), ..bboxes@[mm] }),
                    forall|mm: int|
                        0 <= mm < m ==> #[trigger] self.assoc_rows@[a0.len() + k * n + mm] == (Bbox {
                            class_id: Some(c),
                            ..bboxes@[mm]
                        }),
                    forall|y: int|
                        a0.len() <= y < self.assoc_rows@.len() ==> in_span(
                            #[trigger] self.assoc_rows@[y],
                            bboxes@,
                        ),
                    self.tracker_range == old(self).tracker_range,
                    self.tracks == old(self).tracks,
                    self.dnns == old(self).dnns,
                    self.stationary == old(self).stationary,
                    self.finalized_stationary == old(self).finalized_stationary,
                    self.track2class == old(self).track2class,
                    self.stationary_maxage == old(self).stationary_maxage,
                    self.max_track_id == old(self).max_track_id,
                    self.track_rows == old(self).track_rows,
                    self.dnn_rows == old(self).dnn_rows,
                    self.stationary_rows == old(self).stationary_rows,
                decreases n - m,
            {
                let mut b = bboxes[m];
                b.class_id = Some(c);
                proof {
                    let bm = bboxes@[m as int];
                    assert(bboxes@[0].timestamp->0 <= bm.timestamp->0);
                    assert(bm.timestamp->0 <= bboxes@[bboxes@.len() - 1].timestamp->0);
                }
                let ghost before = self.assoc_rows@;
                self.assoc_rows.push(b);
                proof {
                    assert(self.assoc_rows@.subrange(0, a0.len() as int) =~= before.subrange(
                        0,
                        a0.len() as int,
                    ));
                    assert forall|kk: int, mm: int|
                        0 <= kk < k && 0 <= mm < n implies #[trigger] self.assoc_rows@[a0.len() + kk
                        * n + mm] == (Bbox { class_id: Some(classes@[kk]), ..bboxes@[mm] }) by {
                        assert(kk * n + mm < k * n) by (nonlinear_arith)
                            requires
                                0 <= kk < k,
                                0 <= mm < n,
                        ;
                        assert(before[a0.len() + kk * n + mm] == self.assoc_rows@[a0.len() + kk * n
                            + mm]);
                    }
                }
                m += 1;
            }
            proof {
                assert((k + 1) * n == k * n + n) by (nonlinear_arith);
            }
            k += 1;
        }
        proof {
            let cr = cross_rows(bboxes@, classes@);
            let nn = n as int;
            assert forall|y: int| 0 <= y < cr.len() implies self.assoc_rows@[a0.len() + y] == cr[y] by {
                lemma_fundamental_div_mod(y, nn);
                lemma_mod_pos_bound(y, nn);
                let q = y / nn;
                let r = y % nn;
                assert(q < classes@.len()) by (nonlinear_arith)
                    requires
                        y == nn * q + r,
                        0 <= r < nn,
                        y < classes@.len() * nn,
                ;
                assert(0 <= q) by (nonlinear_arith)
                    requires
                        y == nn * q + r,
                        0 <= r < nn,
                        0 <= y,
                ;
                assert(y == q * nn + r) by (nonlinear_arith)
                    requires
                        y == nn * q + r,
                ;
                assert(self.assoc_rows@[a0.len() + q * n + r] == (Bbox {
                    class_id: Some(classes@[q]),
                    ..bboxes@[r]
                }));
            }
            assert(self.assoc_rows@ =~= a0 + cr) by {
                assert forall|y: int| 0 <= y < a0.len() implies self.assoc_rows@[y] == a0[y] by {
                    assert(self.assoc_rows@.subrange(0, a0.len() as int)[y] == self.assoc_rows@[y]);
                }
            }
        }
    }

    /// Writes out the tracks of the shard of `timestamp` that ended before
    /// it: each box once for each class kept from the track's votes.
    pub fn finalize_trk(&mut self, timestamp: u64)
        requires
            old(self).wf(),
        ensures
            final(self).wf(),
            final(self).tracks@ == tracks_kept(old(self).tracks@, timestamp),
            final(self).assoc_rows@.len() >= old(self).assoc_rows@.len(),
            final(self).assoc_rows@.subrange(0, old(self).assoc_rows@.len() as int)
                == old(self).assoc_rows@,
            forall|y: int|
                old(self).assoc_rows@.len() <= y < final(self).assoc_rows@.len() ==> from_due_track(
                    #[trigger] final(self).assoc_rows@[y],
                    old(self).tracks@,
                    timestamp,
                ),
            exists|cls: Seq<Seq<u32>>|
                {
                    &&& cls.len() == tracks_due(old(self).tracks@, timestamp).len()
                    &&& forall|k: int|
                        0 <= k < cls.len() ==> classes_for(
                            votes_at(old(self).track2class@, tracks_due(old(self).tracks@, timestamp), k),
                            #[trigger] cls[k],
                        )
                    &&& final(self).assoc_rows@ == old(self).assoc_rows@ + #[trigger] all_cross_rows(
                        tracks_due(old(self).tracks@, timestamp),
                        cls,
                    )
                },
            forall|id: u64|
                #[trigger] votes_of(final(self).track2class@, id) == if id_taken(
                    tracks_due(old(self).tracks@, timestamp),
                    tracks_due(old(self).tracks@, timestamp).len() as int,
                    id,
                ) {
                    Seq::<u32>::empty()
                } else {
                    votes_of(old(self).track2class@, id)
                },
            final(self).tracker_range == old(self).tracker_range,
            final(self).dnns == old(self).dnns,
            final(self).stationary == old(self).stationary,
            final(self).finalized_stationary == old(self).finalized_stationary,
            final(self).stationary_maxage == old(self).stationary_maxage,
            final(self).max_track_id == old(self).max_track_id,
            final(self).track_rows == old(self).track_rows,
            final(self).dnn_rows == old(self).dnn_rows,
            final(self).stationary_rows == old(self).stationary_rows,
    {
        let ghost t0 = self.tracks@;
        let ghost a0 = self.assoc_rows@;
        let ghost mut src: Seq<int> = Seq::empty();
        let ghost v0 = self.track2class@;
        let ghost mut dues: Seq<Track> = Seq::empty();
        let ghost mut cls: Seq<Seq<u32>> = Seq::empty();
        assert(t0.len() == self.tracks.len());
        let mut rest: Vec<Track> = Vec::new();
        std::mem::swap(&mut rest, &mut self.tracks);
        let mut kept: Vec<Track> = Vec::new();
        let mut i: usize = 0;
        while rest.len() > 0
            invariant
                i <= t0.len(),
                t0.len() <= usize::MAX,
                rest@ == t0.skip(i as int),
                t0 == old(self).tracks@,
                a0 == old(self).assoc_rows@,
                kept@ == tracks_kept(t0.take(i as int), timestamp),
                v0 == old(self).track2class@,
                dues == tracks_due(t0.take(i as int), timestamp),
                cls.len() == dues.len(),
                forall|k: int| 0 <= k < cls.len() ==> classes_for(votes_at(v0, dues, k), #[trigger] cls[k]),
                self.assoc_rows@ == a0 + all_cross_rows(dues, cls),
                forall|id: u64|
                    #[trigger] votes_of(self.track2class@, id) == if id_taken(dues, dues.len() as int, id) {
                        Seq::<u32>::empty()
                    } else {
                        votes_of(v0, id)
                    },
                forall|k: int| 0 <= k < t0.len() ==> track_ok((#[trigger] t0[k]).bboxes@),
                self.assoc_rows@.len() == a0.len() + src.len(),
                self.assoc_rows@.subrange(0, a0.len() as int) == a0,
                forall|y: int|
                    0 <= y < src.len() ==> 0 <= #[trigger] src[y] < t0.len() && track_due(
                        t0[src[y]],
                        timestamp,
                    ) && in_span(self.assoc_rows@[a0.len() + y], t0[src[y]].bboxes@),
                self.tracker_range == old(self).tracker_range,
                self.dnns == old(self).dnns,
                self.stationary == old(self).stationary,
                self.finalized_stationary == old(self).finalized_stationary,
                self.stationary_maxage == old(self).stationary_maxage,
                self.max_track_id == old(self).max_track_id,
                self.track_rows == old(self).track_rows,
                self.dnn_rows == old(self).dnn_rows,
                self.stationary_rows == old(self).stationary_rows,
            decreases rest@.len(),
        {
            let t = rest.remove(0);
            proof {
                assert(t == t0[i as int]);
                assert(t0.take(i + 1).drop_last() =~= t0.take(i as int));
                assert(t0.take(i + 1).last() == t);
                assert(t0.skip(i + 1) =~= t0.skip(i as int).remove(0));
                assert(track_ok(t.bboxes@));
            }
            let last = t.bboxes[t.bboxes.len() - 1].timestamp.unwrap();
            if t.range_start <= timestamp && timestamp < t.range_end && last < timestamp {
                let id = t.bboxes[0].track_id.unwrap();
                let ghost vt = self.track2class@;
                let votes = self.take_votes(id);
                let classes = vote_classes(&votes);
                let ghost before = self.assoc_rows@;
                let ghost src0 = src;
                self.emit_assoc(&t.bboxes, &classes);
                proof {
                    let nd = dues.push(t);
                    assert(track_id_of(t) == id);
                    assert(nd[dues.len() as int] == t);
                    assert forall|idx: u64| id_taken(nd, dues.len() as int, idx) == id_taken(dues, dues.len() as int, idx) by {
                        if id_taken(nd, dues.len() as int, idx) {
                            let j = choose|j: int| 0 <= j < dues.len() && track_id_of(#[trigger] nd[j]) == idx;
                            assert(nd[j] == dues[j]);
                        }
                        if id_taken(dues, dues.len() as int, idx) {
                            let j = choose|j: int| 0 <= j < dues.len() && track_id_of(#[trigger] dues[j]) == idx;
                            assert(nd[j] == dues[j]);
                        }
                    }
                    assert(votes@ == votes_of(vt, id));
                    assert(votes@ == votes_at(v0, nd, dues.len() as int));
                    assert forall|k: int| 0 <= k < dues.len() implies votes_at(v0, nd, k) == votes_at(v0, dues, k) by {
                        assert(nd[k] == dues[k]);
                        assert forall|idx: u64| id_taken(nd, k, idx) == id_taken(dues, k, idx) by {
                            if id_taken(nd, k, idx) {
                                let j = choose|j: int| 0 <= j < k && track_id_of(#[trigger] nd[j]) == idx;
                                assert(nd[j] == dues[j]);
                            }
                            if id_taken(dues, k, idx) {
                                let j = choose|j: int| 0 <= j < k && track_id_of(#[trigger] dues[j]) == idx;
                                assert(nd[j] == dues[j]);
                            }
                        }
                    }
                    let ncls = cls.push(classes@);
                    assert forall|k: int| 0 <= k < ncls.len() implies classes_for(votes_at(v0, nd, k), #[trigger] ncls[k]) by {
                        if k < cls.len() {
                            assert(ncls[k] == cls[k]);
                        }
                    }
                    assert(nd.drop_last() =~= dues);
                    assert(ncls.drop_last() =~= cls);
                    assert(all_cross_rows(nd, ncls) == all_cross_rows(dues, cls) + cross_rows(t.bboxes@, classes@));
                    assert(self.assoc_rows@ =~= a0 + all_cross_rows(nd, ncls));
                    assert forall|idx: u64| #[trigger] votes_of(self.track2class@, idx) == if id_taken(nd, nd.len() as int, idx) {
                        Seq::<u32>::empty()
                    } else {
                        votes_of(v0, idx)
                    } by {
                        if idx == id {
                            assert(track_id_of(nd[dues.len() as int]) == idx);
                        } else {
                            assert(votes_of(self.track2class@, idx) == votes_of(vt, idx));
                            if id_taken(nd, nd.len() as int, idx) {
                                let j = choose|j: int| 0 <= j < nd.len() && track_id_of(#[trigger] nd[j]) == idx;
                                assert(j < dues.len());
                                assert(nd[j] == dues[j]);
                            }
                            if id_taken(dues, dues.len() as int, idx) {
                                let j = choose|j: int| 0 <= j < dues.len() && track_id_of(#[trigger] dues[j]) == idx;
                                assert(nd[j] == dues[j]);
                            }
                        }
                    }
                    assert(nd == tracks_due(t0.take(i + 1), timestamp));
                    dues = nd;
                    cls = ncls;
                }
                proof {
                    let added = self.assoc_rows@.len() - before.len();
                    src = src0 + Seq::new(added as nat, |z: int| i as int);
                    assert(self.assoc_rows@.subrange(0, a0.len() as int) =~= before.subrange(
                        0,
                        a0.len() as int,
                    ));
                    assert forall|y: int| 0 <= y < src.len() implies 0 <= #[trigger] src[y] < t0.len()
                        && track_due(t0[src[y]], timestamp) && in_span(
                        self.assoc_rows@[a0.len() + y],
                        t0[src[y]].bboxes@,
                    ) by {
                        if y < src0.len() {
                            assert(src[y] == src0[y]);
                            assert(self.assoc_rows@.subrange(0, before.len() as int)[a0.len() + y]
                                == self.assoc_rows@[a0.len() + y]);
                        } else {
                            assert(src[y] == i);
                            assert(in_span(self.assoc_rows@[a0.len() + y], t.bboxes@));
                        }
                    }
                }
            } else {
                kept.push(t);
                proof {
                    assert(dues == tracks_due(t0.take(i + 1), timestamp));
                }
            }
            i += 1;
        }
        self.tracks = kept;
        proof {
            assert(t0.take(i as int) =~= t0);
            assert(dues == tracks_due(old(self).tracks@, timestamp));
            assert forall|k: int| 0 <= k < self.tracks@.len() implies track_ok(
                (#[trigger] self.tracks@[k]).bboxes@,
            ) by {
                lemma_tracks_kept_from(t0, timestamp, k);
            }
            assert forall|y: int|
                a0.len() <= y < self.assoc_rows@.len() implies from_due_track(
                #[trigger] self.assoc_rows@[y],
                t0,
                timestamp,
            ) by {
                let x = src[y - a0.len()];
                assert(0 <= x < t0.len());
                assert(old(self).tracks@[x] == t0[x]);
                assert(track_due(old(self).tracks@[x], timestamp));
                assert(in_span(self.assoc_rows@[y], old(self).tracks@[x].bboxes@));
            }
        }
    }

    /// At the end of the run: writes out every track still held, each box
    /// once for each class kept from the track's votes.
    fn flush_tracks(&mut self)
        requires
            old(self).wf(),
        ensures
            final(self).wf(),
            final(self).tracks@.len() == 0,
            final(self).assoc_rows@.len() >= old(self).assoc_rows@.len(),
            final(self).assoc_rows@.subrange(0, old(self).assoc_rows@.len() as int)
                == old(self).assoc_rows@,
            forall|y: int|
                old(self).assoc_rows@.len() <= y < final(self).assoc_rows@.len() ==> from_track(
                    #[trigger] final(self).assoc_rows@[y],
                    old(self).tracks@,
                ),
            exists|cls: Seq<Seq<u32>>|
                {
                    &&& cls.len() == old(self).tracks@.len()
                    &&& forall|k: int|
                        0 <= k < cls.len() ==> classes_for(
                            votes_at(old(self).track2class@, old(self).tracks@, k),
                            #[trigger] cls[k],
                        )
                    &&& final(self).assoc_rows@ == old(self).assoc_rows@ + #[trigger] all_cross_rows(
                        old(self).tracks@,
                        cls,
                    )
                },
            forall|id: u64|
                #[trigger] votes_of(final(self).track2class@, id) == if id_taken(
                    old(self).tracks@,
                    old(self).tracks@.len() as int,
                    id,
                ) {
                    Seq::<u32>::empty()
                } else {
                    votes_of(old(self).track2class@, id)
                },
            final(self).tracker_range == old(self).tracker_range,
            final(self).dnns == old(self).dnns,
            final(self).stationary == old(self).stationary,
            final(self).finalized_stationary == old(self).finalized_stationary,
            final(self).stationary_maxage == old(self).stationary_maxage,
            final(self).max_track_id == old(self).max_track_id,
            final(self).track_rows == old(self).track_rows,
            final(self).dnn_rows == old(self).dnn_rows,
            final(self).stationary_rows == old(self).stationary_rows,
    {
        let ghost t0 = self.tracks@;
        let ghost a0 = self.assoc_rows@;
        let ghost mut src: Seq<int> = Seq::empty();
        let ghost v0 = self.track2class@;
        let ghost mut dues: Seq<Track> = Seq::empty();
        let ghost mut cls: Seq<Seq<u32>> = Seq::empty();
        assert(t0.len() == self.tracks.len());
        let mut rest: Vec<Track> = Vec::new();
        std::mem::swap(&mut rest, &mut self.tracks);
        let mut kept: Vec<Track> = Vec::new();
        let mut i: usize = 0;
        while rest.len() > 0
            invariant
                i <= t0.len(),
                t0.len() <= usize::MAX,
                rest@ == t0.skip(i as int),
                t0 == old(self).tracks@,
                a0 == old(self).assoc_rows@,
                kept@.len() == 0,
                v0 == old(self).track2class@,
                dues == t0.take(i as int),
                cls.len() == dues.len(),
                forall|k: int| 0 <= k < cls.len() ==> classes_for(votes_at(v0, dues, k), #[trigger] cls[k]),
                self.assoc_rows@ == a0 + all_cross_rows(dues, cls),
                forall|id: u64|
                    #[trigger] votes_of(self.track2class@, id) == if id_taken(dues, dues.len() as int, id) {
                        Seq::<u32>::empty()
                    } else {
                        votes_of(v0, id)
                    },
                forall|k: int| 0 <= k < t0.len() ==> track_ok((#[trigger] t0[k]).bboxes@),
                self.assoc_rows@.len() == a0.len() + src.len(),
                self.assoc_rows@.subrange(0, a0.len() as int) == a0,
                forall|y: int|
                    0 <= y < src.len() ==> 0 <= #[trigger] src[y] < t0.len() && in_span(
                        self.assoc_rows@[a0.len() + y],
                        t0[src[y]].bboxes@,
                    ),
                self.tracker_range == old(self).tracker_range,
                self.dnns == old(self).dnns,
                self.stationary == old(self).stationary,
                self.finalized_stationary == old(self).finalized_stationary,
                self.stationary_maxage == old(self).stationary_maxage,
                self.max_track_id == old(self).max_track_id,
                self.track_rows == old(self).track_rows,
                self.dnn_rows == old(self).dnn_rows,
                self.stationary_rows == old(self).stationary_rows,
            decreases rest@.len(),
        {
            let t = rest.remove(0);
            proof {
                assert(t == t0[i as int]);
                assert(t0.take(i + 1).drop_last() =~= t0.take(i as int));
                assert(t0.take(i + 1).last() == t);
                assert(t0.skip(i + 1) =~= t0.skip(i as int).remove(0));
                assert(track_ok(t.bboxes@));
            }
            {
                let id = t.bboxes[0].track_id.unwrap();
                let ghost vt = self.track2class@;
                let votes = self.take_votes(id);
                let classes = vote_classes(&votes);
                let ghost before = self.assoc_rows@;
                let ghost src0 = src;
                self.emit_assoc(&t.bboxes, &classes);
                proof {
                    let nd = dues.push(t);
                    assert(track_id_of(t) == id);
                    assert(nd[dues.len() as int] == t);
                    assert forall|idx: u64| id_taken(nd, dues.len() as int, idx) == id_taken(dues, dues.len() as int, idx) by {
                        if id_taken(nd, dues.len() as int, idx) {
                            let j = choose|j: int| 0 <= j < dues.len() && track_id_of(#[trigger] nd[j]) == idx;
                            assert(nd[j] == dues[j]);
                        }
                        if id_taken(dues, dues.len() as int, idx) {
                            let j = choose|j: int| 0 <= j < dues.len() && track_id_of(#[trigger] dues[j]) == idx;
                            assert(nd[j] == dues[j]);
                        }
                    }
                    assert(votes@ == votes_of(vt, id));
                    assert(votes@ == votes_at(v0, nd, dues.len() as int));
                    assert forall|k: int| 0 <= k < dues.len() implies votes_at(v0, nd, k) == votes_at(v0, dues, k) by {
                        assert(nd[k] == dues[k]);
                        assert forall|idx: u64| id_taken(nd, k, idx) == id_taken(dues, k, idx) by {
                            if id_taken(nd, k, idx) {
                                let j = choose|j: int| 0 <= j < k && track_id_of(#[trigger] nd[j]) == idx;
                                assert(nd[j] == dues[j]);
                            }
                            if id_taken(dues, k, idx) {
                                let j = choose|j: int| 0 <= j < k && track_id_of(#[trigger] dues[j]) == idx;
                                assert(nd[j] == dues[j]);
                            }
                        }
                    }
                    let ncls = cls.push(classes@);
                    assert forall|k: int| 0 <= k < ncls.len() implies classes_for(votes_at(v0, nd, k), #[trigger] ncls[k]) by {
                        if k < cls.len() {
                            assert(ncls[k] == cls[k]);
                        }
                    }
                    assert(nd.drop_last() =~= dues);
                    assert(ncls.drop_last() =~= cls);
                    assert(all_cross_rows(nd, ncls) == all_cross_rows(dues, cls) + cross_rows(t.bboxes@, classes@));
                    assert(self.assoc_rows@ =~= a0 + all_cross_rows(nd, ncls));
                    assert forall|idx: u64| #[trigger] votes_of(self.track2class@, idx) == if id_taken(nd, nd.len() as int, idx) {
                        Seq::<u32>::empty()
                    } else {
                        votes_of(v0, idx)
                    } by {
                        if idx == id {
                            assert(track_id_of(nd[dues.len() as int]) == idx);
                        } else {
                            assert(votes_of(self.track2class@, idx) == votes_of(vt, idx));
                            if id_taken(nd, nd.len() as int, idx) {
                                let j = choose|j: int| 0 <= j < nd.len() && track_id_of(#[trigger] nd[j]) == idx;
                                assert(j < dues.len());
                                assert(nd[j] == dues[j]);
                            }
                            if id_taken(dues, dues.len() as int, idx) {
                                let j = choose|j: int| 0 <= j < dues.len() && track_id_of(#[trigger] dues[j]) == idx;
                                assert(nd[j] == dues[j]);
                            }
                        }
                    }
                    assert(nd == t0.take(i + 1));
                    dues = nd;
                    cls = ncls;
                }
                proof {
                    let added = self.assoc_rows@.len() - before.len();
                    src = src0 + Seq::new(added as nat, |z: int| i as int);
                    assert(self.assoc_rows@.subrange(0, a0.len() as int) =~= before.subrange(
                        0,
                        a0.len() as int,
                    ));
                    assert forall|y: int| 0 <= y < src.len() implies 0 <= #[trigger] src[y] < t0.len()
                        && in_span(
                        self.assoc_rows@[a0.len() + y],
                        t0[src[y]].bboxes@,
                    ) by {
                        if y < src0.len() {
                            assert(src[y] == src0[y]);
                            assert(self.assoc_rows@.subrange(0, before.len() as int)[a0.len() + y]
                                == self.assoc_rows@[a0.len() + y]);
                        } else {
                            assert(src[y] == i);
                            assert(in_span(self.assoc_rows@[a0.len() + y], t.bboxes@));
                        }
                    }
                }
            }
            i += 1;
        }
        self.tracks = kept;
        proof {
            assert(t0.take(i as int) =~= t0);
            assert(dues == old(self).tracks@);
            assert forall|y: int|
                a0.len() <= y < self.assoc_rows@.len() implies from_track(
                #[trigger] self.assoc_rows@[y],
                t0,
            ) by {
                let x = src[y - a0.len()];
                assert(0 <= x < t0.len());
                assert(old(self).tracks@[x] == t0[x]);
                assert(in_span(self.assoc_rows@[y], old(self).tracks@[x].bboxes@));
            }
        }
    }

    /// At the end of the run: finishes every stationary object still held
    /// that was seen at two times or more, and drops the others.
    fn flush_stationary(&mut self)
        requires
            old(self).wf(),
        ensures
            final(self).wf(),
            final(self).stationary@.len() == 0,
            final(self).finalized_stationary@ == old(self).finalized_stationary@ + seen_twice(
                old(self).stationary@,
            ),
            final(self).tracker_range == old(self).tracker_range,
            final(self).tracks == old(self).tracks,
            final(self).dnns == old(self).dnns,
            final(self).track2class == old(self).track2class,
            final(self).stationary_maxage == old(self).stationary_maxage,
            final(self).max_track_id == old(self).max_track_id,
            final(self).track_rows == old(self).track_rows,
            final(self).dnn_rows == old(self).dnn_rows,
            final(self).assoc_rows == old(self).assoc_rows,
            final(self).stationary_rows == old(self).stationary_rows,
    {
        let ghost s0 = self.stationary@;
        let ghost f0 = self.finalized_stationary@;
        let mut i: usize = 0;
        proof {
            assert(f0 + seen_twice(s0.take(0)) =~= f0);
        }
        while i < self.stationary.len()
            invariant
                i <= s0.len(),
                self.stationary@ == s0,
                s0 == old(self).stationary@,
                f0 == old(self).finalized_stationary@,
                self.finalized_stationary@ == f0 + seen_twice(s0.take(i as int)),
                self.tracker_range == old(self).tracker_range,
                self.tracks == old(self).tracks,
                self.dnns == old(self).dnns,
                self.track2class == old(self).track2class,
                self.stationary_maxage == old(self).stationary_maxage,
                self.max_track_id == old(self).max_track_id,
                self.track_rows == old(self).track_rows,
                self.dnn_rows == old(self).dnn_rows,
                self.assoc_rows == old(self).assoc_rows,
                self.stationary_rows == old(self).stationary_rows,
            decreases s0.len() - i,
        {
            let st = self.stationary[i];
            proof {
                assert(s0.take(i + 1).drop_last() =~= s0.take(i as int));
                assert(s0.take(i + 1).last() == st);
            }
            if st.start != st.end {
                let ghost fb = self.finalized_stationary@;
                self.finalized_stationary.push(st);
                proof {
                    assert(fb.push(st) =~= f0 + seen_twice(s0.take(i as int)).push(st));
                }
            }
            i += 1;
        }
        proof {
            assert(s0.take(i as int) =~= s0);
        }
        self.stationary = Vec::new();
    }

    /// Extends the stationary object of shard `range_start` and of the
    /// detection's class that overlaps the unmatched detection `det` most,
    /// or starts a new one.
    fn absorb_stationary<G: Overlap>(&mut self, range_start: u64, range_end: u64, det: Bbox, geom: &G)
        requires
            det_ok(det),
        ensures
            (exists|j: int|
                0 <= j < old(self).stationary@.len() && old(self).stationary@[j].range_start
                    == range_start && old(self).stationary@[j].class_id == det.class_id->0
                    && final(self).stationary@ == old(self).stationary@.update(
                    j,
                    Stationary { end: det.timestamp->0, ..old(self).stationary@[j] },
                )) || final(self).stationary@ == old(self).stationary@.push(
                fresh_stationary(range_start, range_end, det),
            ),
            final(self).tracker_range == old(self).tracker_range,
            final(self).tracks == old(self).tracks,
            final(self).dnns == old(self).dnns,
            final(self).finalized_stationary == old(self).finalized_stationary,
            final(self).track2class == old(self).track2class,
            final(self).stationary_maxage == old(self).stationary_maxage,
            final(self).max_track_id == old(self).max_track_id,
            final(self).track_rows == old(self).track_rows,
            final(self).dnn_rows == old(self).dnn_rows,
            final(self).assoc_rows == old(self).assoc_rows,
            final(self).stationary_rows == old(self).stationary_rows,
    {
        let class_id = det.class_id.unwrap();
        let mut idx: Vec<usize> = Vec::new();
        let mut cands: Vec<Bbox> = Vec::new();
        let mut i: usize = 0;
        while i < self.stationary.len()
            invariant
                i <= self.stationary@.len(),
                idx@.len() == cands@.len(),
                forall|k: int|
                    0 <= k < idx@.len() ==> (#[trigger] idx@[k]) < self.stationary@.len()
                        && self.stationary@[idx@[k] as int].range_start == range_start
                        && self.stationary@[idx@[k] as int].class_id == class_id,
            decreases self.stationary@.len() - i,
        {
            let st = self.stationary[i];
            if st.range_start == range_start && st.class_id == class_id {
                idx.push(i);
                cands.push(st.bbox);
            }
            i += 1;
        }
        match geom.best_stationary(&cands, &det) {
            Some(k) if k < idx.len() => {
                let j = idx[k];
                self.stationary[j].update(det);
            },
            _ => {
                self.stationary.push(Stationary::new(range_start, range_end, det));
            },
        }
    }

    /// Retires the detections of shard `[range_start, range_end)` older
    /// than `oldest`: no track can match them any more. Those never matched
    /// feed the stationary objects.
    pub fn finalize_dnn<G: Overlap>(&mut self, range_start: u64, range_end: u64, oldest: u64, geom: &G)
        requires
            old(self).wf(),
        ensures
            final(self).wf(),
            final(self).dnns@ == dnns_kept(old(self).dnns@, range_start, range_end, oldest),
            final(self).stationary@.len() >= old(self).stationary@.len(),
            forall|k: int|
                0 <= k < final(self).stationary@.len() ==> #[trigger] stationary_from(
                    final(self).stationary@,
                    k,
                    old(self).stationary@,
                    old(self).dnns@,
                    range_start,
                    range_end,
                    oldest,
                ),
            forall|x: int|
                0 <= x < old(self).dnns@.len() && dnn_due(
                    #[trigger] old(self).dnns@[x],
                    range_start,
                    range_end,
                    oldest,
                ) && !old(self).dnns@[x].matched ==> has_stationary(
                    final(self).stationary@,
                    range_start,
                    old(self).dnns@[x].bbox.class_id->0,
                ),
            final(self).tracker_range == old(self).tracker_range,
            final(self).tracks == old(self).tracks,
            final(self).finalized_stationary == old(self).finalized_stationary,
            final(self).track2class == old(self).track2class,
            final(self).stationary_maxage == old(self).stationary_maxage,
            final(self).max_track_id == old(self).max_track_id,
            final(self).track_rows == old(self).track_rows,
            final(self).dnn_rows == old(self).dnn_rows,
            final(self).assoc_rows == old(self).assoc_rows,
            final(self).stationary_rows == old(self).stationary_rows,
    {
        let ghost d0 = self.dnns@;
        assert(d0.len() == self.dnns.len());
        let mut rest: Vec<Detection> = Vec::new();
        std::mem::swap(&mut rest, &mut self.dnns);
        let mut kept: Vec<Detection> = Vec::new();
        let mut i: usize = 0;
        while rest.len() > 0
            invariant
                i <= d0.len(),
                d0.len() <= usize::MAX,
                rest@ == d0.skip(i as int),
                d0 == old(self).dnns@,
                kept@ == dnns_kept(d0.take(i as int), range_start, range_end, oldest),
                forall|x: int|
                    0 <= x < i && dnn_due(#[trigger] d0[x], range_start, range_end, oldest) && !d0[x].matched
                        ==> has_stationary(self.stationary@, range_start, d0[x].bbox.class_id->0),
                forall|k: int| 0 <= k < d0.len() ==> det_ok((#[trigger] d0[k]).bbox),
                self.stationary@.len() >= old(self).stationary@.len(),
                forall|k: int|
                    0 <= k < self.stationary@.len() ==> #[trigger] stationary_from(
                        self.stationary@,
                        k,
                        old(self).stationary@,
                        d0,
                        range_start,
                        range_end,
                        oldest,
                    ),
                self.tracker_range == old(self).tracker_range,
                self.tracks == old(self).tracks,
                self.finalized_stationary == old(self).finalized_stationary,
                self.track2class == old(self).track2class,
                self.stationary_maxage == old(self).stationary_maxage,
                self.max_track_id == old(self).max_track_id,
                self.track_rows == old(self).track_rows,
                self.dnn_rows == old(self).dnn_rows,
                self.assoc_rows == old(self).assoc_rows,
                self.stationary_rows == old(self).stationary_rows,
            decreases rest@.len(),
        {
            let d = rest.remove(0);
            proof {
                assert(d == d0[i as int]);
                assert(d0.take(i + 1).drop_last() =~= d0.take(i as int));
                assert(d0.take(i + 1).last() == d);
                assert(d0.skip(i + 1) =~= d0.skip(i as int).remove(0));
            }
            let ts = d.bbox.timestamp.unwrap();
            if range_start <= ts && ts < range_end && ts < oldest {
                if !d.matched {
                    let ghost st0 = self.stationary@;
                    self.absorb_stationary(range_start, range_end, d.bbox, geom);
                    proof {
                        assert forall|c: u32| has_stationary(st0, range_start, c) implies has_stationary(
                            self.stationary@,
                            range_start,
                            c,
                        ) by {
                            let k = choose|k: int|
                                0 <= k < st0.len() && (#[trigger] st0[k]).range_start == range_start
                                    && st0[k].class_id == c;
                            assert(self.stationary@[k].range_start == range_start
                                && self.stationary@[k].class_id == c);
                        }
                        if self.stationary@ == st0.push(fresh_stationary(range_start, range_end, d.bbox)) {
                            assert(self.stationary@[st0.len() as int].range_start == range_start);
                        } else {
                            let j = choose|j: int|
                                0 <= j < st0.len() && st0[j].range_start == range_start
                                    && st0[j].class_id == d.bbox.class_id->0
                                    && self.stationary@ == st0.update(
                                    j,
                                    Stationary { end: d.bbox.timestamp->0, ..st0[j] },
                                );
                            assert(self.stationary@[j].range_start == range_start);
                        }
                        assert(has_stationary(self.stationary@, range_start, d.bbox.class_id->0));
                    }
                    proof {
                        let o = old(self).stationary@;
                        assert forall|k: int| 0 <= k < self.stationary@.len() implies #[trigger] stationary_from(
                            self.stationary@,
                            k,
                            o,
                            d0,
                            range_start,
                            range_end,
                            oldest,
                        ) by {
                            assert(dnn_due(d0[i as int], range_start, range_end, oldest));
                            if k < st0.len() {
                                assert(stationary_from(st0, k, o, d0, range_start, range_end, oldest));
                                if k >= o.len() {
                                    let x = choose|x: int|
                                        0 <= x < d0.len() && dnn_due(d0[x], range_start, range_end, oldest)
                                            && !d0[x].matched && st0[k] == (Stationary {
                                            end: st0[k].end,
                                            ..fresh_stationary(range_start, range_end, #[trigger] d0[x].bbox)
                                        });
                                    if self.stationary@[k] != st0[k] {
                                        let j = choose|j: int|
                                            0 <= j < st0.len() && st0[j].range_start == range_start
                                                && st0[j].class_id == d.bbox.class_id->0
                                                && self.stationary@ == st0.update(
                                                j,
                                                Stationary { end: d.bbox.timestamp->0, ..st0[j] },
                                            );
                                        assert(j == k);
                                        assert(self.stationary@[k] == (Stationary {
                                            end: self.stationary@[k].end,
                                            ..fresh_stationary(range_start, range_end, d0[x].bbox)
                                        }));
                                    }
                                }
                            } else {
                                assert(self.stationary@[k] == (Stationary {
                                    end: self.stationary@[k].end,
                                    ..fresh_stationary(range_start, range_end, d0[i as int].bbox)
                                }));
                            }
                        }
                    }
                }
            } else {
                kept.push(d);
            }
            i += 1;
        }
        self.dnns = kept;
        proof {
            assert(d0.take(i as int) =~= d0);
            assert forall|k: int| 0 <= k < self.dnns@.len() implies det_ok(
                (#[trigger] self.dnns@[k]).bbox,
            ) by {
                lemma_dnns_kept_from(d0, range_start, range_end, oldest, k);
            }
        }
    }

    /// Raises `max_track_id` to the id of the track `track`.
    pub fn update_max_track_id(&mut self, track: &Vec<Bbox>)
        requires
            track@.len() > 0,
            track@[0].track_id is Some,
        ensures
            final(self).max_track_id == if track@[0].track_id->0 > old(self).max_track_id {
                track@[0].track_id->0
            } else {
                old(self).max_track_id
            },
            final(self).tracker_range == old(self).tracker_range,
            final(self).tracks == old(self).tracks,
            final(self).dnns == old(self).dnns,
            final(self).stationary == old(self).stationary,
            final(self).finalized_stationary == old(self).finalized_stationary,
            final(self).track2class == old(self).track2class,
            final(self).stationary_maxage == old(self).stationary_maxage,
            final(self).track_rows == old(self).track_rows,
            final(self).dnn_rows == old(self).dnn_rows,
            final(self).assoc_rows == old(self).assoc_rows,
            final(self).stationary_rows == old(self).stationary_rows,
    {
        let id = track[0].track_id.unwrap();
        if id > self.max_track_id {
            self.max_track_id = id;
        }
    }

    /// Lets the new track `trk` take the class of each pending detection in
    /// its time span that its box at that time overlaps.
    fn match_pending<G: Overlap>(&mut self, trk: &Vec<Bbox>, geom: &G)
        requires
            old(self).wf(),
            track_ok(trk@),
        ensures
            final(self).wf(),
            final(self).dnns@.len() == old(self).dnns@.len(),
            forall|i: int|
                0 <= i < final(self).dnns@.len() ==> (#[trigger] final(self).dnns@[i]).bbox == old(
                    self,
                ).dnns@[i].bbox && (old(self).dnns@[i].matched ==> final(self).dnns@[i].matched),
            final(self).track2class@.len() >= old(self).track2class@.len(),
            final(self).track2class@.subrange(0, old(self).track2class@.len() as int) == old(
                self,
            ).track2class@,
            forall|x: int|
                old(self).track2class@.len() <= x < final(self).track2class@.len() ==> (#[trigger] final(self).track2class@[x]).0
                    == trk@[0].track_id->0 && voted_in_span(
                    old(self).dnns@,
                    trk@,
                    final(self).track2class@[x].1,
                ),
            forall|i: int|
                0 <= i < final(self).dnns@.len() && (#[trigger] final(self).dnns@[i]).matched
                    && !old(self).dnns@[i].matched ==> first_ts(trk@)
                    <= old(self).dnns@[i].bbox.timestamp->0 <= last_ts(trk@),
            final(self).tracker_range == old(self).tracker_range,
            final(self).tracks == old(self).tracks,
            final(self).stationary == old(self).stationary,
            final(self).finalized_stationary == old(self).finalized_stationary,
            final(self).stationary_maxage == old(self).stationary_maxage,
            final(self).max_track_id == old(self).max_track_id,
            final(self).track_rows == old(self).track_rows,
            final(self).dnn_rows == old(self).dnn_rows,
            final(self).assoc_rows == old(self).assoc_rows,
            final(self).stationary_rows == old(self).stationary_rows,
    {
        let first = trk[0].timestamp.unwrap();
        let last = trk[trk.len() - 1].timestamp.unwrap();
        let id = trk[0].track_id.unwrap();
        let ghost v0 = self.track2class@;
        let mut i: usize = 0;
        while i < self.dnns.len()
            invariant
                i <= self.dnns@.len(),
                self.dnns@.len() == old(self).dnns@.len(),
                forall|k: int|
                    0 <= k < self.dnns@.len() ==> (#[trigger] self.dnns@[k]).bbox == old(
                        self,
                    ).dnns@[k].bbox && (old(self).dnns@[k].matched ==> self.dnns@[k].matched),
                self.track2class@.len() >= v0.len(),
                self.track2class@.subrange(0, v0.len() as int) == v0,
                v0 == old(self).track2class@,
                first == first_ts(trk@),
                last == last_ts(trk@),
                id == trk@[0].track_id->0,
                forall|x: int|
                    v0.len() <= x < self.track2class@.len() ==> (#[trigger] self.track2class@[x]).0 == id
                        && voted_in_span(old(self).dnns@, trk@, self.track2class@[x].1),
                forall|k: int|
                    0 <= k < self.dnns@.len() && (#[trigger] self.dnns@[k]).matched
                        && !old(self).dnns@[k].matched ==> first <= old(self).dnns@[k].bbox.timestamp->0
                        <= last,
                old(self).wf(),
                self.tracker_range == old(self).tracker_range,
                self.tracks == old(self).tracks,
                self.stationary == old(self).stationary,
                self.finalized_stationary == old(self).finalized_stationary,
                self.stationary_maxage == old(self).stationary_maxage,
                self.max_track_id == old(self).max_track_id,
                self.track_rows == old(self).track_rows,
                self.dnn_rows == old(self).dnn_rows,
                self.assoc_rows == old(self).assoc_rows,
                self.stationary_rows == old(self).stationary_rows,
            decreases self.dnns@.len() - i,
        {
            let d = self.dnns[i];
            proof {
                assert(det_ok(old(self).dnns@[i as int].bbox));
            }
            let ts = d.bbox.timestamp.unwrap();
            if first <= ts && ts <= last {
                match box_at(trk, ts) {
                    Some(tb) => {
                        if geom.track_matches(&tb, &d.bbox, true) {
                            let ghost t1 = self.track2class@;
                            self.track2class.push((id, d.bbox.class_id.unwrap()));
                            proof {
                                assert(self.track2class@.subrange(0, v0.len() as int) =~= t1.subrange(
                                    0,
                                    v0.len() as int,
                                ));
                                assert(old(self).dnns@[i as int].bbox == d.bbox);
                                assert(voted_in_span(old(self).dnns@, trk@, d.bbox.class_id->0));
                                assert forall|x: int|
                                    v0.len() <= x < self.track2class@.len() implies (#[trigger] self.track2class@[x]).0
                                    == id && voted_in_span(old(self).dnns@, trk@, self.track2class@[x].1) by {
                                    if x < t1.len() {
                                        assert(self.track2class@[x] == t1[x]);
                                    }
                                }
                            }
                            let ghost dn0 = self.dnns@;
                            self.dnns.set(i, Detection { matched: true, bbox: d.bbox });
                            proof {
                                assert forall|k: int|
                                    0 <= k < self.dnns@.len() && (#[trigger] self.dnns@[k]).matched
                                        && !old(self).dnns@[k].matched implies first
                                    <= old(self).dnns@[k].bbox.timestamp->0 <= last by {
                                    if k != i {
                                        assert(self.dnns@[k] == dn0[k]);
                                    }
                                }
                            }
                        }
                    },
                    None => {},
                }
            }
            i += 1;
        }
    }

    /// Whether some held track of the detection's shard, begun by its time,
    /// has a box at that time that overlaps it; each such track takes the
    /// detection's class.
    fn match_tracks<G: Overlap>(&mut self, det: &Bbox, geom: &G) -> (matched: bool)
        requires
            old(self).wf(),
            det_ok(*det),
        ensures
            final(self).wf(),
            final(self).track2class@.len() >= old(self).track2class@.len(),
            final(self).track2class@.subrange(0, old(self).track2class@.len() as int) == old(
                self,
            ).track2class@,
            matched <==> final(self).track2class@.len() > old(self).track2class@.len(),
            forall|x: int|
                old(self).track2class@.len() <= x < final(self).track2class@.len() ==> (#[trigger] final(self).track2class@[x]).1
                    == det.class_id->0 && vote_target(
                    old(self).tracks@,
                    final(self).track2class@[x].0,
                    det.timestamp->0,
                ),
            final(self).tracker_range == old(self).tracker_range,
            final(self).tracks == old(self).tracks,
            final(self).dnns == old(self).dnns,
            final(self).stationary == old(self).stationary,
            final(self).finalized_stationary == old(self).finalized_stationary,
            final(self).stationary_maxage == old(self).stationary_maxage,
            final(self).max_track_id == old(self).max_track_id,
            final(self).track_rows == old(self).track_rows,
            final(self).dnn_rows == old(self).dnn_rows,
            final(self).assoc_rows == old(self).assoc_rows,
            final(self).stationary_rows == old(self).stationary_rows,
    {
        let ts = det.timestamp.unwrap();
        let class_id = det.class_id.unwrap();
        let ghost v0 = self.track2class@;
        let mut matched = false;
        let mut i: usize = 0;
        while i < self.tracks.len()
            invariant
                i <= self.tracks@.len(),
                self.track2class@.len() >= v0.len(),
                self.track2class@.subrange(0, v0.len() as int) == v0,
                v0 == old(self).track2class@,
                old(self).wf(),
                self.tracker_range == old(self).tracker_range,
                self.tracks == old(self).tracks,
                self.dnns == old(self).dnns,
                self.stationary == old(self).stationary,
                self.finalized_stationary == old(self).finalized_stationary,
                self.stationary_maxage == old(self).stationary_maxage,
                self.max_track_id == old(self).max_track_id,
                self.track_rows == old(self).track_rows,
                self.dnn_rows == old(self).dnn_rows,
                self.assoc_rows == old(self).assoc_rows,
                self.stationary_rows == old(self).stationary_rows,
                matched <==> self.track2class@.len() > v0.len(),
                forall|x: int|
                    v0.len() <= x < self.track2class@.len() ==> (#[trigger] self.track2class@[x]).1
                        == class_id && vote_target(self.tracks@, self.track2class@[x].0, ts),
                class_id == det.class_id->0,
                ts == det.timestamp->0,
            decreases self.tracks@.len() - i,
        {
            proof {
                assert(track_ok(self.tracks@[i as int].bboxes@));
            }
            let rs = self.tracks[i].range_start;
            let re = self.tracks[i].range_end;
            let first = self.tracks[i].bboxes[0].timestamp.unwrap();
            if rs <= ts && ts < re && first <= ts {
                match box_at(&self.tracks[i].bboxes, ts) {
                    Some(tb) => {
                        if geom.track_matches(&tb, det, false) {
                            let id = self.tracks[i].bboxes[0].track_id.unwrap();
                            let ghost t1 = self.track2class@;
                            self.track2class.push((id, class_id));
                            proof {
                                assert(vote_target(self.tracks@, id, ts)) by {
                                    assert(track_id_of(self.tracks@[i as int]) == id);
                                }
                                assert(self.track2class@.subrange(0, v0.len() as int) =~= t1.subrange(
                                    0,
                                    v0.len() as int,
                                ));
                                assert forall|x: int|
                                    v0.len() <= x < self.track2class@.len() implies (#[trigger] self.track2class@[x]).1
                                    == class_id && vote_target(self.tracks@, self.track2class@[x].0, ts) by {
                                    if x < t1.len() {
                                        assert(self.track2class@[x] == t1[x]);
                                    }
                                }
                            }
                            matched = true;
                        }
                    },
                    None => {},
                }
            }
            i += 1;
        }
        matched
    }

    /// Takes in a finished track of shard `range_start`, whose oldest live
    /// track started at `oldest`: writes its boxes, lets it take the class of
    /// the pending detections it overlaps, and retires the detections that
    /// no track can match any more.
    pub fn update_track<G: Overlap>(&mut self, range_start: u64, oldest: u64, trk: Vec<Bbox>, geom: &G) -> (r: Result<(), AssocError>)
        requires
            old(self).wf(),
        ensures
            final(self).wf(),
            r is Ok <==> (exists|i: int|
                0 <= i < old(self).tracker_range@.len() && (#[trigger] old(self).tracker_range@[i]).0
                    == range_start) && track_ok(trk@),
            r == Err::<(), AssocError>(AssocError::UnknownShard) <==> forall|i: int|
                0 <= i < old(self).tracker_range@.len() ==> (#[trigger] old(self).tracker_range@[i]).0
                    != range_start,
            r is Err ==> *final(self) == *old(self),
            r is Ok ==> {
                &&& final(self).track_rows@ == old(self).track_rows@ + trk@
                &&& final(self).max_track_id == if trk@[0].track_id->0 > old(self).max_track_id {
                    trk@[0].track_id->0
                } else {
                    old(self).max_track_id
                }
                &&& final(self).tracks@.len() == old(self).tracks@.len() + 1
                &&& final(self).tracks@.last().range_start == range_start
                &&& final(self).tracks@.last().bboxes@ == trk@
                &&& final(self).tracks@.drop_last() == old(self).tracks@
                &&& final(self).track2class@.len() >= old(self).track2class@.len()
                &&& final(self).track2class@.subrange(0, old(self).track2class@.len() as int)
                    == old(self).track2class@
                &&& forall|x: int|
                    old(self).track2class@.len() <= x < final(self).track2class@.len() ==> (#[trigger] final(self).track2class@[x]).0
                        == trk@[0].track_id->0 && voted_in_span(
                        old(self).dnns@,
                        trk@,
                        final(self).track2class@[x].1,
                    )
                &&& exists|flagged: Seq<Detection>|
                    {
                        &&& flagged.len() == old(self).dnns@.len()
                        &&& forall|i: int|
                            0 <= i < flagged.len() ==> (#[trigger] flagged[i]).bbox == old(
                                self,
                            ).dnns@[i].bbox && (old(self).dnns@[i].matched ==> flagged[i].matched)
                                && (flagged[i].matched && !old(self).dnns@[i].matched ==> first_ts(trk@)
                                <= flagged[i].bbox.timestamp->0 <= last_ts(trk@))
                        &&& final(self).dnns@ == dnns_kept(
                            flagged,
                            range_start,
                            final(self).tracks@.last().range_end,
                            oldest,
                        )
                        &&& forall|x: int|
                            0 <= x < flagged.len() && dnn_due(
                                #[trigger] flagged[x],
                                range_start,
                                final(self).tracks@.last().range_end,
                                oldest,
                            ) && !flagged[x].matched ==> has_stationary(
                                final(self).stationary@,
                                range_start,
                                flagged[x].bbox.class_id->0,
                            )
                    }
            },
    {
        let range_end = match self.range_end_of(range_start) {
            Some(e) => e,
            None => return Err(AssocError::UnknownShard),
        };
        if !check_track(&trk) {
            return Err(AssocError::MalformedTrack);
        }
        let ghost r0 = self.track_rows@;
        let mut i: usize = 0;
        while i < trk.len()
            invariant
                i <= trk@.len(),
                self.track_rows@ == r0 + trk@.take(i as int),
                r0 == old(self).track_rows@,
                track_ok(trk@),
                self.max_track_id == old(self).max_track_id,
                old(self).wf(),
                self.tracker_range == old(self).tracker_range,
                self.tracks == old(self).tracks,
                self.dnns == old(self).dnns,
                self.stationary == old(self).stationary,
                self.finalized_stationary == old(self).finalized_stationary,
                self.track2class == old(self).track2class,
                self.stationary_maxage == old(self).stationary_maxage,
                self.dnn_rows == old(self).dnn_rows,
                self.assoc_rows == old(self).assoc_rows,
                self.stationary_rows == old(self).stationary_rows,
            decreases trk@.len() - i,
        {
            proof {
                assert(trk@.take(i + 1) =~= trk@.take(i as int).push(trk@[i as int]));
            }
            self.track_rows.push(trk[i]);
            i += 1;
        }
        proof {
            assert(trk@.take(i as int) =~= trk@);
        }
        self.update_max_track_id(&trk);
        proof {
            assert forall|k: int| 0 <= k < self.track_rows@.len() implies (#[trigger] self.track_rows@[k]).track_id is Some
                && self.track_rows@[k].track_id->0 <= self.max_track_id by {
                if k < r0.len() {
                    assert(self.track_rows@[k] == r0[k]);
                } else {
                    assert(self.track_rows@[k] == trk@[k - r0.len()]);
                }
            }
        }
        self.match_pending(&trk, geom);
        let ghost flagged = self.dnns@;
        let ghost tr0 = self.tracks@;
        self.tracks.push(Track { range_start, range_end, bboxes: trk });
        proof {
            assert(self.tracks@.drop_last() =~= tr0);
        }
        self.finalize_dnn(range_start, range_end, oldest, geom);
        proof {
            assert(self.dnns@ == dnns_kept(flagged, range_start, range_end, oldest));
            assert(self.tracks@.last().range_end == range_end);
            assert(flagged.len() == old(self).dnns@.len());
            assert(forall|i: int|
                0 <= i < flagged.len() ==> (#[trigger] flagged[i]).bbox == old(self).dnns@[i].bbox
                    && (old(self).dnns@[i].matched ==> flagged[i].matched));
        }
        Ok(())
    }

    /// Takes in a batch of detections: first writes out what their times
    /// settle, then records each detection with whether a track took its
    /// class.
    pub fn update_dnn<G: Overlap>(&mut self, dnn_bboxes: Vec<Bbox>, geom: &G) -> (r: Result<(), AssocError>)
        requires
            old(self).wf(),
        ensures
            final(self).wf(),
            r is Ok <==> forall|i: int| 0 <= i < dnn_bboxes@.len() ==> det_ok(#[trigger] dnn_bboxes@[i]),
            r is Err ==> r == Err::<(), AssocError>(AssocError::MalformedDetection) && *final(self)
                == *old(self),
            r is Ok ==> {
                &&& final(self).dnn_rows@ == old(self).dnn_rows@ + dnn_bboxes@
                &&& final(self).dnns@.len() >= dnn_bboxes@.len()
                &&& forall|k: int|
                    0 <= k < dnn_bboxes@.len() ==> (#[trigger] final(self).dnns@[final(self).dnns@.len()
                        - dnn_bboxes@.len() + k]).bbox == dnn_bboxes@[k]
                &&& final(self).max_track_id == old(self).max_track_id
                &&& exists|lens: Seq<int>| #[trigger] votes_split(
                    lens,
                    final(self).track2class@,
                    final(self).dnns@.subrange(
                        final(self).dnns@.len() - dnn_bboxes@.len(),
                        final(self).dnns@.len() as int,
                    ),
                    final(self).tracks@,
                )
                &&& forall|x: int, t: int|
                    0 <= x < dnn_bboxes@.len() && 0 <= t < final(self).tracks@.len() ==> !track_due(
                        #[trigger] final(self).tracks@[t],
                        (#[trigger] dnn_bboxes@[x]).timestamp->0,
                    )
                &&& forall|x: int, t: int|
                    0 <= x < dnn_bboxes@.len() && 0 <= t < final(self).stationary@.len()
                        ==> !stationary_due(
                        #[trigger] final(self).stationary@[t],
                        (#[trigger] dnn_bboxes@[x]).timestamp->0,
                        final(self).stationary_maxage,
                    )
            },
    {
        if !check_detections(&dnn_bboxes) {
            return Err(AssocError::MalformedDetection);
        }
        let mut times: Vec<u64> = Vec::new();
        let mut i: usize = 0;
        while i < dnn_bboxes.len()
            invariant
                i <= dnn_bboxes@.len(),
                forall|k: int| 0 <= k < dnn_bboxes@.len() ==> det_ok(#[trigger] dnn_bboxes@[k]),
                times@.len() == i,
                forall|k: int| 0 <= k < i ==> #[trigger] times@[k] == dnn_bboxes@[k].timestamp->0,
            decreases dnn_bboxes@.len() - i,
        {
            times.push(dnn_bboxes[i].timestamp.unwrap());
            i += 1;
        }
        let ghost all_times = times@;
        let times = unique_values(&times);
        let mut j: usize = 0;
        while j < times.len()
            invariant
                j <= times@.len(),
                self.wf(),
                self.max_track_id == old(self).max_track_id,
                self.dnn_rows == old(self).dnn_rows,
                self.stationary_maxage == old(self).stationary_maxage,
                forall|a: int, t: int|
                    0 <= a < j && 0 <= t < self.tracks@.len() ==> !track_due(
                        #[trigger] self.tracks@[t],
                        #[trigger] times@[a],
                    ),
                forall|a: int, t: int|
                    0 <= a < j && 0 <= t < self.stationary@.len() ==> !stationary_due(
                        #[trigger] self.stationary@[t],
                        #[trigger] times@[a],
                        self.stationary_maxage,
                    ),
            decreases times@.len() - j,
        {
            let ghost st0 = self.stationary@;
            self.finalize_stationary(times[j]);
            let ghost tr0 = self.tracks@;
            self.finalize_trk(times[j]);
            proof {
                let maxage = self.stationary_maxage;
                assert forall|a: int, t: int|
                    0 <= a < j + 1 && 0 <= t < self.stationary@.len() implies !stationary_due(
                    #[trigger] self.stationary@[t],
                    #[trigger] times@[a],
                    maxage,
                ) by {
                    lemma_stationary_kept_facts(st0, times@[j as int], maxage, t);
                }
                assert forall|a: int, t: int|
                    0 <= a < j + 1 && 0 <= t < self.tracks@.len() implies !track_due(
                    #[trigger] self.tracks@[t],
                    #[trigger] times@[a],
                ) by {
                    lemma_tracks_kept_from(tr0, times@[j as int], t);
                    lemma_tracks_kept_not_due(tr0, times@[j as int], t);
                }
            }
            j += 1;
        }
        let ghost tr_f = self.tracks;
        let ghost st_f = self.stationary;
        let ghost times_f = times@;
        proof {
            assert forall|x: int| 0 <= x < dnn_bboxes@.len() implies exists|a: int|
                0 <= a < times@.len() && times@[a] == (#[trigger] dnn_bboxes@[x]).timestamp->0 by {
                assert(all_times[x] == dnn_bboxes@[x].timestamp->0);
                assert(all_times.contains(all_times[x]));
            }
        }
        let ghost r0 = self.dnn_rows@;
        let ghost n0 = self.dnns@.len();
        let ghost mut lens: Seq<int> = seq![self.track2class@.len() as int];
        proof {
            assert(self.dnns@.subrange(n0 as int, self.dnns@.len() as int) =~= Seq::<Detection>::empty());
        }
        let mut k: usize = 0;
        while k < dnn_bboxes.len()
            invariant
                k <= dnn_bboxes@.len(),
                self.wf(),
                forall|x: int| 0 <= x < dnn_bboxes@.len() ==> det_ok(#[trigger] dnn_bboxes@[x]),
                self.dnn_rows@ == r0 + dnn_bboxes@.take(k as int),
                r0 == old(self).dnn_rows@,
                self.dnns@.len() == n0 + k,
                forall|x: int| 0 <= x < k ==> (#[trigger] self.dnns@[n0 + x]).bbox == dnn_bboxes@[x],
                self.max_track_id == old(self).max_track_id,
                self.tracks == tr_f,
                self.stationary == st_f,
                self.stationary_maxage == old(self).stationary_maxage,
                votes_split(
                    lens,
                    self.track2class@,
                    self.dnns@.subrange(n0 as int, self.dnns@.len() as int),
                    tr_f@,
                ),
            decreases dnn_bboxes@.len() - k,
        {
            let det = dnn_bboxes[k];
            proof {
                assert(dnn_bboxes@.take(k + 1) =~= dnn_bboxes@.take(k as int).push(det));
            }
            self.dnn_rows.push(det);
            let ghost v_before = self.track2class@;
            let ghost ds_before = self.dnns@.subrange(n0 as int, self.dnns@.len() as int);
            let matched = self.match_tracks(&det, geom);
            let ghost before = self.dnns@;
            self.dnns.push(Detection { matched, bbox: det });
            proof {
                let nl = lens.push(self.track2class@.len() as int);
                let nds = self.dnns@.subrange(n0 as int, self.dnns@.len() as int);
                assert(nds =~= ds_before.push(Detection { matched, bbox: det }));
                assert forall|kk: int|
                    0 <= kk < nds.len() implies nl[kk] <= nl[kk + 1] && ((#[trigger] nds[kk]).matched
                    <==> nl[kk] < nl[kk + 1]) && forall|x: int|
                    nl[kk] <= x < nl[kk + 1] ==> (#[trigger] self.track2class@[x]).1
                        == nds[kk].bbox.class_id->0 && vote_target(
                        tr_f@,
                        self.track2class@[x].0,
                        nds[kk].bbox.timestamp->0,
                    ) by {
                    if kk < ds_before.len() {
                        assert(nds[kk] == ds_before[kk]);
                        assert(nl[kk + 1] == lens[kk + 1]);
                        assert(lens[kk + 1] <= v_before.len());
                        assert forall|x: int| nl[kk] <= x < nl[kk + 1] implies (#[trigger] self.track2class@[x]).1
                            == nds[kk].bbox.class_id->0 && vote_target(
                            tr_f@,
                            self.track2class@[x].0,
                            nds[kk].bbox.timestamp->0,
                        ) by {
                            assert(self.track2class@.subrange(0, v_before.len() as int)[x]
                                == self.track2class@[x]);
                            assert(v_before[x].1 == ds_before[kk].bbox.class_id->0);
                        }
                    }
                }
                assert forall|kk: int| 0 <= kk <= nds.len() implies 0 <= #[trigger] nl[kk]
                    <= self.track2class@.len() by {
                    if kk < nl.len() - 1 {
                        assert(nl[kk] == lens[kk]);
                    }
                }
                assert(votes_split(nl, self.track2class@, nds, tr_f@));
                lens = nl;
            }
            proof {
                assert forall|x: int| 0 <= x < k + 1 implies (#[trigger] self.dnns@[n0 + x]).bbox
                    == dnn_bboxes@[x] by {
                    if x < k {
                        assert(self.dnns@[n0 + x] == before[n0 + x]);
                    }
                }
                assert forall|x: int| 0 <= x < self.dnns@.len() implies det_ok(
                    (#[trigger] self.dnns@[x]).bbox,
                ) by {
                    if x < before.len() {
                        assert(self.dnns@[x] == before[x]);
                    }
                }
            }
            k += 1;
        }
        proof {
            assert(dnn_bboxes@.take(k as int) =~= dnn_bboxes@);
        }
        proof {
            assert forall|x: int, t: int|
                0 <= x < dnn_bboxes@.len() && 0 <= t < self.tracks@.len() implies !track_due(
                #[trigger] self.tracks@[t],
                (#[trigger] dnn_bboxes@[x]).timestamp->0,
            ) by {
                let a = choose|a: int| 0 <= a < times_f.len() && times_f[a] == dnn_bboxes@[x].timestamp->0;
                assert(!track_due(tr_f@[t], times_f[a]));
            }
            assert forall|x: int, t: int|
                0 <= x < dnn_bboxes@.len() && 0 <= t < self.stationary@.len() implies !stationary_due(
                #[trigger] self.stationary@[t],
                (#[trigger] dnn_bboxes@[x]).timestamp->0,
                self.stationary_maxage,
            ) by {
                let a = choose|a: int| 0 <= a < times_f.len() && times_f[a] == dnn_bboxes@[x].timestamp->0;
                assert(!stationary_due(st_f@[t], times_f[a], self.stationary_maxage));
            }
        }
        Ok(())
    }

    /// At the end of the run: settles every shard to its range end, writes
    /// out every track still held and finishes every stationary object seen
    /// twice or more, then gives each finished stationary object a fresh
    /// track id above `max_track_id`, in order, and writes out its series.
    pub fn terminate<G: Overlap>(&mut self, geom: &G) -> (r: Result<(), AssocError>)
        requires
            old(self).wf(),
        ensures
            final(self).wf(),
            final(self).max_track_id == old(self).max_track_id,
            r is Ok ==> final(self).tracks@.len() == 0 && final(self).stationary@.len() == 0,
            final(self).finalized_stationary@.len() >= old(self).finalized_stationary@.len(),
            forall|k: int|
                0 <= k < old(self).finalized_stationary@.len() ==> #[trigger] final(self).finalized_stationary@[k] == (Stationary {
                    track_id: final(self).finalized_stationary@[k].track_id,
                    ..old(self).finalized_stationary@[k]
                }),
            forall|j: int, x: int|
                0 <= j < final(self).tracker_range@.len() && 0 <= x < final(self).tracks@.len()
                    ==> !track_due(
                    #[trigger] final(self).tracks@[x],
                    (#[trigger] final(self).tracker_range@[j]).1,
                ),
            forall|j: int, x: int|
                0 <= j < final(self).tracker_range@.len() && 0 <= x < final(self).dnns@.len()
                    ==> !dnn_due(
                    #[trigger] final(self).dnns@[x],
                    (#[trigger] final(self).tracker_range@[j]).0,
                    final(self).tracker_range@[j].1,
                    final(self).tracker_range@[j].1,
                ),
            final(self).stationary_rows@.len() >= old(self).stationary_rows@.len(),
            final(self).stationary_rows@.subrange(0, old(self).stationary_rows@.len() as int)
                == old(self).stationary_rows@,
            r is Err ==> r == Err::<(), AssocError>(AssocError::IdsExhausted)
                && final(self).max_track_id + final(self).finalized_stationary@.len() > u64::MAX,
            r is Ok ==> {
                &&& final(self).stationary_rows@ == old(self).stationary_rows@ + all_series_rows(
                    final(self).finalized_stationary@,
                )
                &&& forall|k: int|
                    0 <= k < final(self).finalized_stationary@.len() ==> (#[trigger] final(self).finalized_stationary@[k]).track_id == Some((final(self).max_track_id + 1 + k) as u64)
                &&& forall|y: int|
                    old(self).stationary_rows@.len() <= y < final(self).stationary_rows@.len() ==> {
                        &&& (#[trigger] final(self).stationary_rows@[y]).track_id is Some
                        &&& final(self).stationary_rows@[y].track_id->0 > final(self).max_track_id
                    }
            },
    {
        let ghost s0 = self.stationary_rows@;
        let mut i: usize = 0;
        while i < self.tracker_range.len()
            invariant
                i <= self.tracker_range@.len(),
                self.wf(),
                self.tracker_range == old(self).tracker_range,
                self.max_track_id == old(self).max_track_id,
                self.stationary_rows == old(self).stationary_rows,
                self.finalized_stationary@.len() >= old(self).finalized_stationary@.len(),
                self.finalized_stationary@.subrange(0, old(self).finalized_stationary@.len() as int)
                    == old(self).finalized_stationary@,
                forall|j: int, x: int|
                    0 <= j < i && 0 <= x < self.tracks@.len() ==> !track_due(
                        #[trigger] self.tracks@[x],
                        (#[trigger] self.tracker_range@[j]).1,
                    ),
                forall|j: int, x: int|
                    0 <= j < i && 0 <= x < self.dnns@.len() ==> !dnn_due(
                        #[trigger] self.dnns@[x],
                        (#[trigger] self.tracker_range@[j]).0,
                        self.tracker_range@[j].1,
                        self.tracker_range@[j].1,
                    ),
            decreases self.tracker_range@.len() - i,
        {
            let (rs, re) = self.tracker_range[i];
            let ghost t0 = self.tracks@;
            self.finalize_trk(re);
            let ghost d0 = self.dnns@;
            proof {
                assert forall|j: int, x: int|
                    0 <= j < i + 1 && 0 <= x < self.tracks@.len() implies !track_due(
                    #[trigger] self.tracks@[x],
                    (#[trigger] self.tracker_range@[j]).1,
                ) by {
                    lemma_tracks_kept_from(t0, re, x);
                    lemma_tracks_kept_not_due(t0, re, x);
                }
            }
            self.finalize_dnn(rs, re, re, geom);
            proof {
                assert forall|j: int, x: int|
                    0 <= j < i + 1 && 0 <= x < self.dnns@.len() implies !dnn_due(
                    #[trigger] self.dnns@[x],
                    (#[trigger] self.tracker_range@[j]).0,
                    self.tracker_range@[j].1,
                    self.tracker_range@[j].1,
                ) by {
                    lemma_dnns_kept_from(d0, rs, re, re, x);
                    lemma_dnns_kept_not_due(d0, rs, re, re, x);
                }
            }
            let ghost fs0 = self.finalized_stationary@;
            self.finalize_stationary(re);
            proof {
                assert(self.finalized_stationary@.subrange(0, old(self).finalized_stationary@.len() as int)
                    =~= fs0.subrange(0, old(self).finalized_stationary@.len() as int));
            }
            i += 1;
        }
        self.flush_tracks();
        let ghost fs1 = self.finalized_stationary@;
        self.flush_stationary();
        proof {
            assert(self.finalized_stationary@.subrange(0, old(self).finalized_stationary@.len() as int)
                =~= fs1.subrange(0, old(self).finalized_stationary@.len() as int));
        }
        let ghost fmid = self.finalized_stationary@;
        let n = self.finalized_stationary.len();
        if self.max_track_id as u128 + n as u128 > u64::MAX as u128 {
            return Err(AssocError::IdsExhausted);
        }
        let base = self.max_track_id;
        let ghost tk0 = self.tracks;
        let ghost dn0 = self.dnns;
        let mut k: usize = 0;
        proof {
            assert(self.finalized_stationary@.take(0) =~= Seq::<Stationary>::empty());
            assert(s0 + all_series_rows(Seq::<Stationary>::empty()) =~= s0);
        }
        while k < n
            invariant
                k <= n,
                n == self.finalized_stationary@.len(),
                base == self.max_track_id,
                base + n <= u64::MAX,
                self.wf(),
                self.tracks == tk0,
                self.dnns == dn0,
                self.stationary@.len() == 0,
                tk0@.len() == 0,
                fmid.len() == n,
                fmid.subrange(0, old(self).finalized_stationary@.len() as int)
                    == old(self).finalized_stationary@,
                old(self).finalized_stationary@.len() <= n,
                forall|x: int|
                    0 <= x < n ==> #[trigger] self.finalized_stationary@[x] == (Stationary {
                        track_id: self.finalized_stationary@[x].track_id,
                        ..fmid[x]
                    }),
                self.tracker_range == old(self).tracker_range,
                self.max_track_id == old(self).max_track_id,
                s0 == old(self).stationary_rows@,
                self.stationary_rows@ == s0 + all_series_rows(self.finalized_stationary@.take(k as int)),
                forall|x: int|
                    0 <= x < k ==> (#[trigger] self.finalized_stationary@[x]).track_id == Some(
                        (base + 1 + x) as u64,
                    ),
                forall|y: int|
                    s0.len() <= y < self.stationary_rows@.len() ==> {
                        &&& (#[trigger] self.stationary_rows@[y]).track_id is Some
                        &&& self.stationary_rows@[y].track_id->0 > base
                    },
            decreases n - k,
        {
            let id = base + 1 + k as u64;
            let mut st = self.finalized_stationary[k];
            st.track_id = Some(id);
            let ghost f0 = self.finalized_stationary@;
            let ghost r0 = self.stationary_rows@;
            self.finalized_stationary.set(k, st);
            let mut rows = st.to_vec();
            proof {
                assert(rows@ =~= series_rows(st));
            }
            self.stationary_rows.append(&mut rows);
            proof {
                assert forall|x: int|
                    0 <= x < n implies #[trigger] self.finalized_stationary@[x] == (Stationary {
                        track_id: self.finalized_stationary@[x].track_id,
                        ..fmid[x]
                    }) by {
                    if x != k {
                        assert(self.finalized_stationary@[x] == f0[x]);
                    }
                }
                assert(self.finalized_stationary@.take(k as int) =~= f0.take(k as int));
                assert(self.finalized_stationary@.take(k + 1) =~= f0.take(k as int).push(st));
                assert(f0.take(k as int).push(st).drop_last() =~= f0.take(k as int));
                assert(self.stationary_rows@ =~= s0 + all_series_rows(self.finalized_stationary@.take(k + 1)));
                assert forall|y: int| s0.len() <= y < self.stationary_rows@.len() implies {
                    &&& (#[trigger] self.stationary_rows@[y]).track_id is Some
                    &&& self.stationary_rows@[y].track_id->0 > base
                } by {
                    if y < r0.len() {
                        assert(self.stationary_rows@[y] == r0[y]);
                    } else {
                        assert(self.stationary_rows@[y] == series_rows(st)[y - r0.len()]);
                    }
                }
                assert forall|x: int| 0 <= x < k + 1 implies (#[trigger] self.finalized_stationary@[x]).track_id
                    == Some((base + 1 + x) as u64) by {
                    if x < k {
                        assert(self.finalized_stationary@[x] == f0[x]);
                    }
                }
            }
            k += 1;
        }
        proof {
            assert(self.finalized_stationary@.take(k as int) =~= self.finalized_stationary@);
            assert forall|x: int| 0 <= x < old(self).finalized_stationary@.len() implies #[trigger] self.finalized_stationary@[x]
                == (Stationary {
                track_id: self.finalized_stationary@[x].track_id,
                ..old(self).finalized_stationary@[x]
            }) by {
                assert(fmid.subrange(0, old(self).finalized_stationary@.len() as int)[x] == fmid[x]);
            }
        }
        Ok(())
    }

    /// Moves the stationary objects of the shard of `dnn_timestamp` that
    /// have gone unseen too long out of the active list; those that were
    /// seen at two times or more are finished.
    pub fn finalize_stationary(&mut self, dnn_timestamp: u64)
        requires
            old(self).wf(),
        ensures
            final(self).wf(),
            final(self).stationary@ == stationary_kept(
                old(self).stationary@,
                dnn_timestamp,
                old(self).stationary_maxage,
            ),
            final(self).finalized_stationary@ == old(self).finalized_stationary@ + stationary_done(
                old(self).stationary@,
                dnn_timestamp,
                old(self).stationary_maxage,
            ),
            final(self).tracker_range == old(self).tracker_range,
            final(self).tracks == old(self).tracks,
            final(self).dnns == old(self).dnns,
            final(self).track2class == old(self).track2class,
            final(self).stationary_maxage == old(self).stationary_maxage,
            final(self).max_track_id == old(self).max_track_id,
            final(self).track_rows == old(self).track_rows,
            final(self).dnn_rows == old(self).dnn_rows,
            final(self).assoc_rows == old(self).assoc_rows,
            final(self).stationary_rows == old(self).stationary_rows,
    {
        let ghost s0 = self.stationary@;
        let ghost f0 = self.finalized_stationary@;
        let maxage = self.stationary_maxage;
        let mut kept: Vec<Stationary> = Vec::new();
        let mut i: usize = 0;
        while i < self.stationary.len()
            invariant
                i <= s0.len(),
                self.stationary@ == s0,
                self.stationary_maxage == maxage,
                kept@ == stationary_kept(s0.take(i as int), dnn_timestamp, maxage),
                self.finalized_stationary@ == f0 + stationary_done(
                    s0.take(i as int),
                    dnn_timestamp,
                    maxage,
                ),
                self.tracker_range == old(self).tracker_range,
                self.tracks == old(self).tracks,
                self.dnns == old(self).dnns,
                self.track2class == old(self).track2class,
                self.max_track_id == old(self).max_track_id,
                self.track_rows == old(self).track_rows,
                self.dnn_rows == old(self).dnn_rows,
                self.assoc_rows == old(self).assoc_rows,
                self.stationary_rows == old(self).stationary_rows,
                f0 == old(self).finalized_stationary@,
                s0 == old(self).stationary@,
                maxage == old(self).stationary_maxage,
            decreases s0.len() - i,
        {
            let st = self.stationary[i];
            proof {
                assert(s0.take(i + 1).drop_last() =~= s0.take(i as int));
                assert(s0.take(i + 1).last() == st);
            }
            let due = st.range_start <= dnn_timestamp && dnn_timestamp < st.range_end && st.end
                < dnn_timestamp && dnn_timestamp - st.end > maxage;
            if !due {
                kept.push(st);
            } else if st.start != st.end {
                let ghost fb = self.finalized_stationary@;
                self.finalized_stationary.push(st);
                proof {
                    assert(fb.push(st) =~= f0 + stationary_done(
                        s0.take(i as int),
                        dnn_timestamp,
                        maxage,
                    ).push(st));
                }
            }
            i += 1;
        }
        proof {
            assert(s0.take(i as int) =~= s0);
        }
        self.stationary = kept;
    }
}

} // verus!
