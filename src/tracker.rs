//! One tracked object: its box history and the hit and age bookkeeping
//! that decides when it becomes active and when it dies.
use vstd::prelude::*;
use crate::bbox::Bbox;

verus! {

/// The motion estimate that a tracker keeps of its object (in the pipeline,
/// a constant-velocity Kalman filter over centre, area and aspect ratio).
pub trait MotionFilter: Sized {
    /// The estimate started from a first detection.
    fn init(det: &Bbox) -> Self;

    /// Advances the estimate by one frame and returns the predicted box.
    fn predict(&mut self) -> Bbox;

    /// Corrects the last prediction with a matched detection.
    fn correct(&mut self, det: &Bbox);
}

/// After this many consecutive matches a match also counts as an update of
/// the object's position in time.
pub const STREAK_FOR_UPDATE: u64 = 5;

pub struct KalmanBoxTracker<K> {
    pub id: u64,
    pub start: u64,
    pub seen_ts: Vec<u64>,
    pub last_match: u64,
    pub active: bool,
    pub history: Vec<Bbox>,
    pub hits: u64,
    pub time_since_update: u64,
    pub hit_streaks: u64,
    pub age: u64,
    pub filter: K,
}

/// `ts` lies in the span in which the object was last matched.
pub open spec fn seen_in(start: u64, last_match: u64, ts: u64) -> bool {
    start <= ts && ts <= last_match
}

impl<K: MotionFilter> KalmanBoxTracker<K> {
    /// The counters agree with one another and with the history.
    pub open spec fn wf(&self) -> bool {
        &&& self.time_since_update <= self.age
        &&& self.time_since_update <= self.history@.len()
        &&& self.hit_streaks <= self.hits
        &&& self.hits <= self.age
    }

    /// A tracker started at time `start` from the detection `initial`.
    pub fn new(id: u64, initial: &Bbox, start: u64) -> (r: Self)
        ensures
            r.id == id,
            r.start == start,
            r.last_match == start,
            r.seen_ts@ == Seq::<u64>::empty(),
            !r.active,
            r.history@ == Seq::<Bbox>::empty(),
            r.hits == 0,
            r.time_since_update == 0,
            r.hit_streaks == 0,
            r.age == 0,
            r.wf(),
    {
        KalmanBoxTracker {
            id,
            start,
            seen_ts: Vec::new(),
            last_match: start,
            active: false,
            history: Vec::new(),
            hits: 0,
            time_since_update: 0,
            hit_streaks: 0,
            age: 0,
            filter: K::init(initial),
        }
    }

    /// Predicts the box at time `ts` and appends it to the history, stamped
    /// with this tracker's id and `ts`.
    pub fn predict(&mut self, ts: u64) -> (r: Bbox)
        requires
            old(self).age < u64::MAX,
            old(self).wf(),
        ensures
            r.track_id == Some(old(self).id),
            r.timestamp == Some(ts),
            final(self).history@ == old(self).history@.push(r),
            final(self).age == old(self).age + 1,
            final(self).time_since_update == old(self).time_since_update + 1,
            final(self).id == old(self).id,
            final(self).start == old(self).start,
            final(self).seen_ts == old(self).seen_ts,
            final(self).last_match == old(self).last_match,
            final(self).active == old(self).active,
            final(self).hits == old(self).hits,
            final(self).hit_streaks == old(self).hit_streaks,
            final(self).wf(),
    {
        let mut b = self.filter.predict();
        b.track_id = Some(self.id);
        b.timestamp = Some(ts);
        self.age = self.age + 1;
        self.time_since_update = self.time_since_update + 1;
        self.history.push(b);
        b
    }

    /// Records a match with `det`, or the lack of one.
    pub fn update(&mut self, det: Option<&Bbox>)
        requires
            old(self).wf(),
            det matches Some(d) ==> {
                &&& old(self).hit_streaks + 1 >= STREAK_FOR_UPDATE ==> d.timestamp is Some
                &&& old(self).history@.len() > 0
                &&& old(self).hits < old(self).age
            },
        ensures
            final(self).wf(),
            final(self).id == old(self).id,
            final(self).start == old(self).start,
            final(self).seen_ts == old(self).seen_ts,
            final(self).active == old(self).active,
            final(self).age == old(self).age,
            final(self).history@.len() == old(self).history@.len(),
            match det {
                Some(d) => {
                    let streak = old(self).hit_streaks + 1;
                    let n = old(self).history@.len() - 1;
                    let last = old(self).history@[n];
                    &&& final(self).hits == old(self).hits + 1
                    &&& final(self).hit_streaks == streak
                    &&& final(self).time_since_update == if streak >= STREAK_FOR_UPDATE {
                        0
                    } else {
                        old(self).time_since_update
                    }
                    &&& final(self).last_match == if streak >= STREAK_FOR_UPDATE {
                        d.timestamp->0
                    } else {
                        old(self).last_match
                    }
                    &&& final(self).history@ == old(self).history@.update(
                        n,
                        Bbox { class_id: d.class_id, confidence: d.confidence, ..last },
                    )
                },
                None => {
                    &&& final(self).hits == old(self).hits
                    &&& final(self).hit_streaks == 0
                    &&& final(self).time_since_update == old(self).time_since_update
                    &&& final(self).last_match == old(self).last_match
                    &&& final(self).history == old(self).history
                },
            },
    {
        match det {
            Some(d) => {
                self.hits = self.hits + 1;
                self.hit_streaks = self.hit_streaks + 1;
                if self.hit_streaks >= STREAK_FOR_UPDATE {
                    self.time_since_update = 0;
                    self.last_match = d.timestamp.unwrap();
                }
                self.filter.correct(d);
                let n = self.history.len() - 1;
                let mut last = self.history[n];
                last.class_id = d.class_id;
                last.confidence = d.confidence;
                self.history.set(n, last);
            },
            None => {
                self.hit_streaks = 0;
            },
        }
    }

    /// Whether the tracker survives with at most `max_age` frames since
    /// its last update.
    pub fn should_live(&self, max_age: u64) -> (r: bool)
        ensures
            r == (self.time_since_update <= max_age),
    {
        self.time_since_update <= max_age
    }

    /// Promotes the tracker to active once it has `min_hits` matches in a
    /// row; an active tracker stays active.
    pub fn check_activate(&mut self, min_hits: u64)
        ensures
            final(self).active == (old(self).active || old(self).hit_streaks >= min_hits),
            final(self).id == old(self).id,
            final(self).start == old(self).start,
            final(self).seen_ts == old(self).seen_ts,
            final(self).last_match == old(self).last_match,
            final(self).history == old(self).history,
            final(self).hits == old(self).hits,
            final(self).time_since_update == old(self).time_since_update,
            final(self).hit_streaks == old(self).hit_streaks,
            final(self).age == old(self).age,
    {
        if !self.active && self.hit_streaks >= min_hits {
            self.active = true;
        }
    }

    /// The first box of the history stamped with time `ts`.
    pub fn location_at(&self, ts: u64) -> (r: Option<&Bbox>)
        ensures
            match r {
                Some(b) => exists|i: int|
                    0 <= i < self.history@.len() && self.history@[i] == *b && b.timestamp
                        == Some(ts) && forall|k: int|
                        0 <= k < i ==> self.history@[k].timestamp != Some(ts),
                None => forall|k: int|
                    0 <= k < self.history@.len() ==> self.history@[k].timestamp != Some(ts),
            },
    {
        let mut i: usize = 0;
        while i < self.history.len()
            invariant
                i <= self.history@.len(),
                forall|k: int| 0 <= k < i ==> self.history@[k].timestamp != Some(ts),
            decreases self.history@.len() - i,
        {
            if self.history[i].timestamp == Some(ts) {
                return Some(&self.history[i]);
            }
            i += 1;
        }
        None
    }

    /// Whether some time marked as seen lies between the tracker's start and
    /// its last match.
    pub fn is_seen(&self) -> (r: bool)
        ensures
            r == exists|k: int|
                0 <= k < self.seen_ts@.len() && seen_in(
                    self.start,
                    self.last_match,
                    #[trigger] self.seen_ts@[k],
                ),
    {
        let mut i: usize = 0;
        while i < self.seen_ts.len()
            invariant
                i <= self.seen_ts@.len(),
                forall|k: int|
                    0 <= k < i ==> !seen_in(self.start, self.last_match, #[trigger] self.seen_ts@[k]),
            decreases self.seen_ts@.len() - i,
        {
            let ts = self.seen_ts[i];
            if self.start <= ts && ts <= self.last_match {
                return true;
            }
            i += 1;
        }
        false
    }

    /// Drops the boxes predicted since the last update from the history.
    pub fn trim_dead_history(&mut self)
        requires
            old(self).time_since_update <= old(self).history@.len(),
        ensures
            final(self).history@ == old(self).history@.take(
                old(self).history@.len() - old(self).time_since_update,
            ),
            final(self).id == old(self).id,
            final(self).start == old(self).start,
            final(self).seen_ts == old(self).seen_ts,
            final(self).last_match == old(self).last_match,
            final(self).active == old(self).active,
            final(self).hits == old(self).hits,
            final(self).time_since_update == old(self).time_since_update,
            final(self).hit_streaks == old(self).hit_streaks,
            final(self).age == old(self).age,
    {
        let keep = self.history.len() - self.time_since_update as usize;
        self.history.truncate(keep);
    }
}

} // verus!
