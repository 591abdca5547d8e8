//! The SORT engine: per-frame prediction, assignment of detections to
//! trackers, activation, death and creation of trackers.
use vstd::prelude::*;
use crate::bbox::Bbox;
use crate::tracker::{KalmanBoxTracker, MotionFilter, STREAK_FOR_UPDATE};

verus! {

/// Solves the assignment of detections to predictions (in the pipeline, a
/// min-cost assignment on negated IoU, weighted to prefer active trackers,
/// filtered by the IoU threshold).
pub trait Matcher {
    /// Pairs `(prediction index, detection index)`.
    fn assign(&self, preds: &Vec<Bbox>, active: &Vec<bool>, dets: &Vec<Bbox>) -> Vec<(usize, usize)>;
}

/// `e` shares its tracker or its detection with a pair of `k`.
pub open spec fn clashes(k: Seq<(usize, usize)>, e: (usize, usize)) -> bool {
    exists|x: int| 0 <= x < k.len() && (k[x].0 == e.0 || k[x].1 == e.1)
}

/// The pairs of `m` that are in range and do not reuse a tracker or a
/// detection of an earlier kept pair.
pub open spec fn kept_matches(m: Seq<(usize, usize)>, nt: nat, nd: nat) -> Seq<(usize, usize)>
    decreases m.len(),
{
    if m.len() == 0 {
        Seq::empty()
    } else {
        let k = kept_matches(m.drop_last(), nt, nd);
        let e = m.last();
        if e.0 < nt && e.1 < nd && !clashes(k, e) {
            k.push(e)
        } else {
            k
        }
    }
}

/// Every pair is in range and no tracker or detection is used twice.
pub open spec fn one_to_one(k: Seq<(usize, usize)>, nt: nat, nd: nat) -> bool {
    &&& forall|x: int| 0 <= x < k.len() ==> k[x].0 < nt && k[x].1 < nd
    &&& forall|x: int, y: int|
        0 <= x < y < k.len() ==> k[x].0 != k[y].0 && k[x].1 != k[y].1
}

/// Keeps the pairs of `m` that form a one-to-one matching of `nt` trackers
/// and `nd` detections, the earlier pair winning a conflict.
pub fn filter_matches(m: &Vec<(usize, usize)>, nt: usize, nd: usize) -> (r: Vec<(usize, usize)>)
    ensures
        r@ == kept_matches(m@, nt as nat, nd as nat),
        one_to_one(r@, nt as nat, nd as nat),
{
    let mut r: Vec<(usize, usize)> = Vec::new();
    let mut i: usize = 0;
    while i < m.len()
        invariant
            i <= m@.len(),
            r@ == kept_matches(m@.take(i as int), nt as nat, nd as nat),
            one_to_one(r@, nt as nat, nd as nat),
        decreases m@.len() - i,
    {
        let e = m[i];
        let mut clash = false;
        let mut x: usize = 0;
        while x < r.len()
            invariant
                x <= r@.len(),
                clash == exists|y: int| 0 <= y < x && (r@[y].0 == e.0 || r@[y].1 == e.1),
            decreases r@.len() - x,
        {
            if r[x].0 == e.0 || r[x].1 == e.1 {
                clash = true;
            }
            x += 1;
        }
        proof {
            assert(m@.take(i + 1).drop_last() =~= m@.take(i as int));
            assert(m@.take(i + 1).last() == e);
        }
        if e.0 < nt && e.1 < nd && !clash {
            r.push(e);
        }
        i += 1;
    }
    assert(m@.take(i as int) =~= m@);
    r
}

/// Whether some kept pair names detection `j`.
fn is_matched_det(matches: &Vec<(usize, usize)>, j: usize) -> (r: bool)
    ensures
        r == exists|x: int| 0 <= x < matches@.len() && #[trigger] matches@[x].1 == j,
{
    let mut x: usize = 0;
    while x < matches.len()
        invariant
            x <= matches@.len(),
            forall|y: int| 0 <= y < x ==> #[trigger] matches@[y].1 != j,
        decreases matches@.len() - x,
    {
        if matches[x].1 == j {
            return true;
        }
        x += 1;
    }
    false
}

/// The detection paired with tracker `i`, if any.
fn det_of(matches: &Vec<(usize, usize)>, i: usize) -> (r: Option<usize>)
    ensures
        match r {
            Some(j) => det_for(matches@, i as int) == Some(j as int),
            None => det_for(matches@, i as int) is None,
        },
{
    let mut x: usize = matches.len();
    proof {
        assert(matches@.take(x as int) =~= matches@);
    }
    while x > 0
        invariant
            x <= matches@.len(),
            det_for(matches@.take(x as int), i as int) == det_for(matches@, i as int),
        decreases x,
    {
        proof {
            assert(matches@.take(x as int).drop_last() =~= matches@.take(x - 1));
        }
        if matches[x - 1].0 == i {
            return Some(matches[x - 1].1);
        }
        x -= 1;
    }
    None
}

/// The trackers of `s` that have had at most `max_age` frames since their
/// last update, in their order.
pub open spec fn live_part<K>(s: Seq<KalmanBoxTracker<K>>, max_age: u64) -> Seq<KalmanBoxTracker<K>>
    decreases s.len(),
{
    if s.len() == 0 {
        Seq::empty()
    } else {
        let p = live_part(s.drop_last(), max_age);
        if s.last().time_since_update <= max_age {
            p.push(s.last())
        } else {
            p
        }
    }
}

/// The number of detections among the first `n` that no pair names.
pub open spec fn unmatched_count(m: Seq<(usize, usize)>, n: int) -> int
    decreases n,
{
    if n <= 0 {
        0
    } else {
        unmatched_count(m, n - 1) + if exists|x: int| 0 <= x < m.len() && #[trigger] m[x].1 == (n
            - 1) as usize {
            0int
        } else {
            1int
        }
    }
}

/// The inactive trackers of `s`, in their order.
pub open spec fn inactive_part<K>(s: Seq<KalmanBoxTracker<K>>) -> Seq<KalmanBoxTracker<K>>
    decreases s.len(),
{
    if s.len() == 0 {
        Seq::empty()
    } else {
        let p = inactive_part(s.drop_last());
        if !s.last().active {
            p.push(s.last())
        } else {
            p
        }
    }
}

/// `b` is `a` with `ts` marked as seen when `mark` holds, and unchanged
/// otherwise.
pub open spec fn seen_marked<K>(a: KalmanBoxTracker<K>, b: KalmanBoxTracker<K>, ts: u64, mark: bool) -> bool {
    &&& b.seen_ts@ == if mark {
        a.seen_ts@.push(ts)
    } else {
        a.seen_ts@
    }
    &&& b.id == a.id
    &&& b.start == a.start
    &&& b.last_match == a.last_match
    &&& b.active == a.active
    &&& b.history == a.history
    &&& b.hits == a.hits
    &&& b.time_since_update == a.time_since_update
    &&& b.hit_streaks == a.hit_streaks
    &&& b.age == a.age
    &&& b.filter == a.filter
}

proof fn lemma_live_part_keeps<K>(s: Seq<KalmanBoxTracker<K>>, i: int, max_age: u64)
    requires
        0 <= i < s.len(),
        s[i].time_since_update <= max_age,
    ensures
        exists|k: int| 0 <= k < live_part(s, max_age).len() && live_part(s, max_age)[k] == s[i],
    decreases s.len(),
{
    let p = live_part(s.drop_last(), max_age);
    if i == s.len() - 1 {
        assert(live_part(s, max_age)[p.len() as int] == s[i]);
    } else {
        lemma_live_part_keeps(s.drop_last(), i, max_age);
        let k = choose|k: int| 0 <= k < p.len() && p[k] == s.drop_last()[i];
        assert(live_part(s, max_age)[k] == s[i]);
    }
}

/// The detection that `m` pairs with tracker `i` (the last pair naming it).
pub open spec fn det_for(m: Seq<(usize, usize)>, i: int) -> Option<int>
    decreases m.len(),
{
    if m.len() == 0 {
        None
    } else if m.last().0 == i {
        Some(m.last().1 as int)
    } else {
        det_for(m.drop_last(), i)
    }
}

/// The box `time_since_update` frames back in the history is the one of
/// the tracker's last counted match.
pub open spec fn stamped_tail<K>(t: KalmanBoxTracker<K>) -> bool {
    t.time_since_update < t.history@.len() ==> t.history@[t.history@.len()
        - t.time_since_update - 1].timestamp == Some(t.last_match)
}

/// `n` is `o` after its prediction at time `pts`.
pub open spec fn predicted<K>(o: KalmanBoxTracker<K>, n: KalmanBoxTracker<K>, pts: u64) -> bool {
    &&& n.id == o.id
    &&& n.start == o.start
    &&& n.seen_ts == o.seen_ts
    &&& n.last_match == o.last_match
    &&& n.active == o.active
    &&& n.hits == o.hits
    &&& n.hit_streaks == o.hit_streaks
    &&& n.age == o.age + 1
    &&& n.time_since_update == o.time_since_update + 1
    &&& n.history@.len() == o.history@.len() + 1
    &&& n.history@.drop_last() == o.history@
    &&& n.history@.last().track_id == Some(o.id)
    &&& n.history@.last().timestamp == Some(pts)
}

/// `n` is the predicted tracker `p` after its update with detection `dm`
/// of `dets` stamped `pts` (or with none), then its activation check.
pub open spec fn updated<K>(
    p: KalmanBoxTracker<K>,
    n: KalmanBoxTracker<K>,
    dm: Option<int>,
    dets: Seq<Bbox>,
    pts: u64,
    min_hits: u64,
) -> bool {
    &&& n.id == p.id
    &&& n.start == p.start
    &&& n.seen_ts == p.seen_ts
    &&& n.age == p.age
    &&& n.active == (p.active || n.hit_streaks >= min_hits)
    &&& match dm {
        Some(j) => {
            let streak = p.hit_streaks + 1;
            &&& n.hits == p.hits + 1
            &&& n.hit_streaks == streak
            &&& n.time_since_update == if streak >= STREAK_FOR_UPDATE {
                0
            } else {
                p.time_since_update
            }
            &&& n.last_match == if streak >= STREAK_FOR_UPDATE {
                pts
            } else {
                p.last_match
            }
            &&& n.history@ == p.history@.update(
                p.history@.len() - 1,
                Bbox {
                    class_id: dets[j].class_id,
                    confidence: dets[j].confidence,
                    ..p.history@.last()
                },
            )
        },
        None => {
            &&& n.hits == p.hits
            &&& n.hit_streaks == 0
            &&& n.time_since_update == p.time_since_update
            &&& n.last_match == p.last_match
            &&& n.history@ == p.history@
        },
    }
}

/// The positions in `s` of the active trackers that have gone more than
/// `max_age` frames without an update, in order.
pub open spec fn dead_idx<K>(s: Seq<KalmanBoxTracker<K>>, max_age: u64) -> Seq<int>
    decreases s.len(),
{
    if s.len() == 0 {
        Seq::empty()
    } else {
        let p = dead_idx(s.drop_last(), max_age);
        if s.last().time_since_update > max_age && s.last().active {
            p.push(s.len() - 1)
        } else {
            p
        }
    }
}

/// `d` is `t` with the boxes predicted since its last update dropped.
pub open spec fn trimmed<K>(t: KalmanBoxTracker<K>, d: KalmanBoxTracker<K>) -> bool {
    &&& d.id == t.id
    &&& d.start == t.start
    &&& d.seen_ts == t.seen_ts
    &&& d.last_match == t.last_match
    &&& d.active == t.active
    &&& d.hits == t.hits
    &&& d.hit_streaks == t.hit_streaks
    &&& d.time_since_update == t.time_since_update
    &&& d.age == t.age
    &&& d.history@ == t.history@.take(t.history@.len() - t.time_since_update)
}

/// `t` is a tracker just started with id `id` at time `pts`.
pub open spec fn fresh_tracker<K>(t: KalmanBoxTracker<K>, id: u64, pts: u64) -> bool {
    &&& t.id == id
    &&& t.start == pts
    &&& t.last_match == pts
    &&& t.seen_ts@.len() == 0
    &&& !t.active
    &&& t.history@.len() == 0
    &&& t.hits == 0
    &&& t.hit_streaks == 0
    &&& t.time_since_update == 0
    &&& t.age == 0
}

/// The active trackers of `s` whose history is longer than `min_hits`, in
/// order.
pub open spec fn done_part<K>(s: Seq<KalmanBoxTracker<K>>, min_hits: u64) -> Seq<KalmanBoxTracker<K>>
    decreases s.len(),
{
    if s.len() == 0 {
        Seq::empty()
    } else {
        let p = done_part(s.drop_last(), min_hits);
        if s.last().active && s.last().history@.len() > min_hits {
            p.push(s.last())
        } else {
            p
        }
    }
}

proof fn lemma_det_for_in_range(m: Seq<(usize, usize)>, nt: nat, nd: nat, i: int)
    requires
        one_to_one(m, nt, nd),
    ensures
        det_for(m, i) matches Some(j) ==> 0 <= j < nd,
    decreases m.len(),
{
    if m.len() > 0 {
        let p = m.drop_last();
        assert(one_to_one(p, nt, nd)) by {
            assert forall|x: int| 0 <= x < p.len() implies p[x].0 < nt && p[x].1 < nd by {
                assert(p[x] == m[x]);
            }
            assert forall|x: int, y: int| 0 <= x < y < p.len() implies p[x].0 != p[y].0 && p[x].1
                != p[y].1 by {
                assert(p[x] == m[x] && p[y] == m[y]);
            }
        }
        lemma_det_for_in_range(p, nt, nd, i);
        assert(m.last() == m[m.len() - 1]);
    }
}

/// `d` holds, in order, the trackers of `s` at `dead_idx(s, max_age)`,
/// each trimmed.
pub open spec fn dead_of<K>(s: Seq<KalmanBoxTracker<K>>, max_age: u64, d: Seq<KalmanBoxTracker<K>>) -> bool {
    &&& d.len() == dead_idx(s, max_age).len()
    &&& forall|x: int| 0 <= x < d.len() ==> #[trigger] dead_at(s, max_age, d, x)
}

/// Entry `x` of `d` is the tracker of `s` at `dead_idx(s, max_age)[x]`,
/// trimmed.
pub open spec fn dead_at<K>(s: Seq<KalmanBoxTracker<K>>, max_age: u64, d: Seq<KalmanBoxTracker<K>>, x: int) -> bool {
    let j = dead_idx(s, max_age)[x];
    &&& 0 <= j < s.len()
    &&& trimmed(s[j], d[x])
}

proof fn lemma_dead_of_step<K>(
    s: Seq<KalmanBoxTracker<K>>,
    i: int,
    max_age: u64,
    d0: Seq<KalmanBoxTracker<K>>,
    d1: Seq<KalmanBoxTracker<K>>,
)
    requires
        0 <= i < s.len(),
        dead_of(s.take(i), max_age, d0),
        if s[i].time_since_update > max_age && s[i].active {
            d1.len() == d0.len() + 1 && d1.drop_last() == d0 && trimmed(s[i], d1.last())
        } else {
            d1 == d0
        },
    ensures
        dead_of(s.take(i + 1), max_age, d1),
{
    lemma_dead_idx_push(s, i, max_age);
    let tk = s.take(i + 1);
    let di = dead_idx(s.take(i), max_age);
    let dn = dead_idx(tk, max_age);
    assert forall|x: int| 0 <= x < d1.len() implies #[trigger] dead_at(tk, max_age, d1, x) by {
        if x < d0.len() {
            assert(dead_at(s.take(i), max_age, d0, x));
        }
        if x < d0.len() {
            if d1.len() > d0.len() {
                assert(d1.drop_last()[x] == d1[x]);
            }
            assert(d1[x] == d0[x]);
            assert(dn[x] == di[x]);
            assert(s.take(i)[di[x]] == tk[di[x]]);
        } else {
            assert(dn[x] == i);
            assert(tk[i] == s[i]);
        }
    }
    assert(d1.len() == dn.len());
}

proof fn lemma_dead_idx_push<K>(s: Seq<KalmanBoxTracker<K>>, i: int, max_age: u64)
    requires
        0 <= i < s.len(),
    ensures
        dead_idx(s.take(i + 1), max_age) == if s[i].time_since_update > max_age && s[i].active {
            dead_idx(s.take(i), max_age).push(i)
        } else {
            dead_idx(s.take(i), max_age)
        },
{
    assert(s.take(i + 1).drop_last() =~= s.take(i));
    assert(s.take(i + 1).last() == s[i]);
}

/// `b` is the engine `a` with the times `ts` marked as seen, in order, on
/// every tracker; nothing else differs.
pub open spec fn marked_seen<K>(a: Sort<K>, b: Sort<K>, ts: Seq<u64>) -> bool {
    &&& b.frame_count == a.frame_count
    &&& b.id_counter == a.id_counter
    &&& b.max_age == a.max_age
    &&& b.min_hits == a.min_hits
    &&& b.width == a.width
    &&& b.height == a.height
    &&& b.trackers@.len() == a.trackers@.len()
    &&& forall|i: int|
        0 <= i < b.trackers@.len() ==> {
            let x = a.trackers@[i];
            let y = #[trigger] b.trackers@[i];
            &&& y.seen_ts@ == x.seen_ts@ + ts
            &&& y.id == x.id
            &&& y.start == x.start
            &&& y.last_match == x.last_match
            &&& y.active == x.active
            &&& y.history == x.history
            &&& y.hits == x.hits
            &&& y.time_since_update == x.time_since_update
            &&& y.hit_streaks == x.hit_streaks
            &&& y.age == x.age
            &&& y.filter == x.filter
        }
}

/// Marking nothing leaves the engine as it is.
pub proof fn lemma_marked_seen_none<K>(a: Sort<K>)
    ensures
        marked_seen(a, a, Seq::empty()),
{
    assert forall|i: int| 0 <= i < a.trackers@.len() implies a.trackers@[i].seen_ts@
        == a.trackers@[i].seen_ts@ + Seq::<u64>::empty() by {
        assert(a.trackers@[i].seen_ts@ + Seq::<u64>::empty() =~= a.trackers@[i].seen_ts@);
    }
}

/// Marks made one after the other add up.
pub proof fn lemma_marked_seen_trans<K>(a: Sort<K>, b: Sort<K>, c: Sort<K>, s: Seq<u64>, t: Seq<u64>)
    requires
        marked_seen(a, b, s),
        marked_seen(b, c, t),
    ensures
        marked_seen(a, c, s + t),
{
    assert forall|i: int| 0 <= i < c.trackers@.len() implies (#[trigger] c.trackers@[i]).seen_ts@
        == a.trackers@[i].seen_ts@ + (s + t) by {
        assert(b.trackers@[i].seen_ts@ == a.trackers@[i].seen_ts@ + s);
        assert(a.trackers@[i].seen_ts@ + s + t =~= a.trackers@[i].seen_ts@ + (s + t));
    }
}

pub struct Sort<K> {
    pub width: usize,
    pub height: usize,
    pub max_age: u64,
    pub min_hits: u64,
    pub trackers: Vec<KalmanBoxTracker<K>>,
    pub frame_count: u64,
    pub id_counter: u64,
}

/// `new` and `dead` come from the predicted trackers `pt` of the engine
/// `base` and the detections `dets` of the frame at `pts`: `m` is the
/// one-to-one matching applied and `mid` the trackers after update and
/// activation. The live trackers of `mid` stay in order, followed by one
/// fresh tracker per unmatched detection; the active trackers of `mid` past
/// `max_age` are returned, trimmed.
pub open spec fn apply_with<K>(
    base: Sort<K>,
    pt: Seq<KalmanBoxTracker<K>>,
    new: Sort<K>,
    dets: Seq<Bbox>,
    pts: u64,
    dead: Seq<KalmanBoxTracker<K>>,
    m: Seq<(usize, usize)>,
    mid: Seq<KalmanBoxTracker<K>>,
) -> bool {
    let live = live_part(mid, base.max_age);
    let spawned = unmatched_count(m, dets.len() as int);
    &&& one_to_one(m, pt.len(), dets.len())
    &&& mid.len() == pt.len()
    &&& forall|i: int|
        0 <= i < mid.len() ==> updated(
            pt[i],
            #[trigger] mid[i],
            det_for(m, i),
            dets,
            pts,
            base.min_hits,
        )
    &&& new.max_age == base.max_age
    &&& new.min_hits == base.min_hits
    &&& new.width == base.width
    &&& new.height == base.height
    &&& new.id_counter == base.id_counter + spawned
    &&& new.trackers@.len() == live.len() + spawned
    &&& new.trackers@.subrange(0, live.len() as int) == live
    &&& forall|k: int|
        live.len() <= k < new.trackers@.len() ==> fresh_tracker(
            #[trigger] new.trackers@[k],
            (base.id_counter + (k - live.len())) as u64,
            pts,
        )
    &&& dead_of(mid, base.max_age, dead)
}

/// `new` and `dead` are `old` after one frame at time `pts` with detections
/// `dets`: `pred` are the trackers after prediction, then the matching `m`
/// is applied as `apply_with` says.
pub open spec fn step_with<K>(
    old: Sort<K>,
    new: Sort<K>,
    dets: Seq<Bbox>,
    pts: u64,
    dead: Seq<KalmanBoxTracker<K>>,
    m: Seq<(usize, usize)>,
    pred: Seq<KalmanBoxTracker<K>>,
    mid: Seq<KalmanBoxTracker<K>>,
) -> bool {
    &&& pred.len() == old.trackers@.len()
    &&& forall|i: int| 0 <= i < pred.len() ==> predicted(old.trackers@[i], #[trigger] pred[i], pts)
    &&& new.frame_count == old.frame_count + 1
    &&& apply_with(old, pred, new, dets, pts, dead, m, mid)
}

/// One frame of SORT takes `old` to `new`, returning `dead`.
pub open spec fn sort_step<K>(
    old: Sort<K>,
    new: Sort<K>,
    dets: Seq<Bbox>,
    pts: u64,
    dead: Seq<KalmanBoxTracker<K>>,
) -> bool {
    exists|m: Seq<(usize, usize)>, pred: Seq<KalmanBoxTracker<K>>, mid: Seq<KalmanBoxTracker<K>>|
        step_with(old, new, dets, pts, dead, m, pred, mid)
}

impl<K: MotionFilter> Sort<K> {
    /// Every tracker is consistent, no older than the engine, and named by
    /// an id below `id_counter`; ids increase along the list.
    pub open spec fn wf_core(&self) -> bool {
        &&& forall|i: int|
            0 <= i < self.trackers@.len() ==> {
                &&& (#[trigger] self.trackers@[i]).wf()
                &&& stamped_tail(self.trackers@[i])
                &&& self.trackers@[i].age <= self.frame_count
                &&& self.trackers@[i].id < self.id_counter
            }
        &&& forall|i: int, j: int|
            0 <= i < j < self.trackers@.len() ==> (#[trigger] self.trackers@[i]).id
                < (#[trigger] self.trackers@[j]).id
    }

    /// `wf_core`, and every tracker is alive.
    pub open spec fn wf(&self) -> bool {
        &&& self.wf_core()
        &&& forall|i: int|
            0 <= i < self.trackers@.len() ==> (#[trigger] self.trackers@[i]).time_since_update
                <= self.max_age
    }

    pub fn new(width: usize, height: usize, max_age: u64, min_hits: u64) -> (r: Self)
        ensures
            r.width == width,
            r.height == height,
            r.max_age == max_age,
            r.min_hits == min_hits,
            r.trackers@.len() == 0,
            r.frame_count == 0,
            r.id_counter == 0,
            r.wf(),
    {
        Sort { width, height, max_age, min_hits, trackers: Vec::new(), frame_count: 0, id_counter: 0 }
    }

    /// Predicts every tracker at time `pts`.
    fn predict_all(&mut self, pts: u64) -> (preds: Vec<Bbox>)
        requires
            old(self).wf_core(),
            forall|i: int|
                0 <= i < old(self).trackers@.len() ==> (#[trigger] old(self).trackers@[i]).age
                    < old(self).frame_count,
        ensures
            final(self).wf_core(),
            final(self).frame_count == old(self).frame_count,
            final(self).id_counter == old(self).id_counter,
            final(self).max_age == old(self).max_age,
            final(self).min_hits == old(self).min_hits,
            final(self).width == old(self).width,
            final(self).height == old(self).height,
            final(self).trackers@.len() == old(self).trackers@.len(),
            preds@.len() == old(self).trackers@.len(),
            forall|i: int|
                0 <= i < final(self).trackers@.len() ==> predicted(
                    old(self).trackers@[i],
                    #[trigger] final(self).trackers@[i],
                    pts,
                ),
    {
        let ghost t0 = self.trackers@;
        let mut preds: Vec<Bbox> = Vec::new();
        let mut i: usize = 0;
        while i < self.trackers.len()
            invariant
                i <= self.trackers@.len(),
                self.trackers@.len() == t0.len(),
                t0 == old(self).trackers@,
                preds@.len() == i,
                self.frame_count == old(self).frame_count,
                self.id_counter == old(self).id_counter,
                self.max_age == old(self).max_age,
                self.min_hits == old(self).min_hits,
                self.width == old(self).width,
                self.height == old(self).height,
                forall|k: int|
                    0 <= k < t0.len() ==> {
                        &&& (#[trigger] self.trackers@[k]).wf()
                        &&& stamped_tail(self.trackers@[k])
                        &&& self.trackers@[k].age <= self.frame_count
                        &&& self.trackers@[k].id < self.id_counter
                    },
                forall|k: int| 0 <= k < i ==> predicted(t0[k], #[trigger] self.trackers@[k], pts),
                forall|k: int|
                    i <= k < t0.len() ==> #[trigger] self.trackers@[k] == t0[k],
                forall|k: int, j: int| 0 <= k < j < t0.len() ==> t0[k].id < t0[j].id,
                forall|k: int| 0 <= k < t0.len() ==> (#[trigger] t0[k]).age < self.frame_count,
            decreases t0.len() - i,
        {
            let ghost before = self.trackers@;
            let b = self.trackers[i].predict(pts);
            proof {
                let o = t0[i as int];
                let n = self.trackers@[i as int];
                assert(before[i as int] == o);
                assert(n.history@.drop_last() =~= o.history@);
                if n.time_since_update < n.history@.len() {
                    assert(n.history@[n.history@.len() - n.time_since_update - 1] == o.history@[o.history@.len()
                        - o.time_since_update - 1]);
                }
                assert forall|k: int| 0 <= k < t0.len() && k != i implies #[trigger] self.trackers@[k]
                    == before[k] by {}
            }
            preds.push(b);
            i += 1;
        }
        preds
    }

    /// Whether each tracker is active.
    fn active_flags(&self) -> (r: Vec<bool>)
        ensures
            r@.len() == self.trackers@.len(),
            forall|i: int| 0 <= i < r@.len() ==> r@[i] == (#[trigger] self.trackers@[i]).active,
    {
        let mut r: Vec<bool> = Vec::new();
        let mut i: usize = 0;
        while i < self.trackers.len()
            invariant
                i <= self.trackers@.len(),
                r@.len() == i,
                forall|k: int| 0 <= k < i ==> r@[k] == (#[trigger] self.trackers@[k]).active,
            decreases self.trackers@.len() - i,
        {
            r.push(self.trackers[i].active);
            i += 1;
        }
        r
    }

    /// Updates each tracker with its matched detection, stamped with `pts`,
    /// or with none, and activates it once it has `min_hits` matches in a
    /// row.
    fn apply_matches(&mut self, matches: &Vec<(usize, usize)>, dets: &Vec<Bbox>, pts: u64)
        requires
            old(self).wf_core(),
            one_to_one(matches@, old(self).trackers@.len(), dets@.len()),
            forall|i: int|
                0 <= i < old(self).trackers@.len() ==> {
                    &&& (#[trigger] old(self).trackers@[i]).history@.len() > 0
                    &&& old(self).trackers@[i].hits < old(self).trackers@[i].age
                    &&& old(self).trackers@[i].history@.last().timestamp == Some(pts)
                },
        ensures
            final(self).wf_core(),
            final(self).frame_count == old(self).frame_count,
            final(self).id_counter == old(self).id_counter,
            final(self).max_age == old(self).max_age,
            final(self).min_hits == old(self).min_hits,
            final(self).width == old(self).width,
            final(self).height == old(self).height,
            final(self).trackers@.len() == old(self).trackers@.len(),
            forall|i: int|
                0 <= i < final(self).trackers@.len() ==> updated(
                    old(self).trackers@[i],
                    #[trigger] final(self).trackers@[i],
                    det_for(matches@, i),
                    dets@,
                    pts,
                    old(self).min_hits,
                ),
    {
        let ghost t0 = self.trackers@;
        let min_hits = self.min_hits;
        let mut i: usize = 0;
        while i < self.trackers.len()
            invariant
                i <= self.trackers@.len(),
                self.trackers@.len() == t0.len(),
                t0 == old(self).trackers@,
                self.frame_count == old(self).frame_count,
                self.id_counter == old(self).id_counter,
                self.max_age == old(self).max_age,
                self.min_hits == min_hits,
                min_hits == old(self).min_hits,
                self.width == old(self).width,
                self.height == old(self).height,
                forall|k: int|
                    0 <= k < t0.len() ==> {
                        &&& (#[trigger] self.trackers@[k]).wf()
                        &&& stamped_tail(self.trackers@[k])
                        &&& self.trackers@[k].age <= self.frame_count
                        &&& self.trackers@[k].id < self.id_counter
                    },
                forall|k: int|
                    0 <= k < i ==> updated(
                        t0[k],
                        #[trigger] self.trackers@[k],
                        det_for(matches@, k),
                        dets@,
                        pts,
                        min_hits,
                    ),
                forall|k: int|
                    i <= k < t0.len() ==> #[trigger] self.trackers@[k] == t0[k],
                forall|k: int, j: int| 0 <= k < j < t0.len() ==> t0[k].id < t0[j].id,
                forall|k: int|
                    0 <= k < t0.len() ==> (#[trigger] t0[k]).history@.len() > 0 && t0[k].hits
                        < t0[k].age && t0[k].history@.last().timestamp == Some(pts),
                one_to_one(matches@, t0.len(), dets@.len()),
            decreases t0.len() - i,
        {
            let ghost before = self.trackers@;
            proof {
                lemma_det_for_in_range(matches@, t0.len(), dets@.len(), i as int);
            }
            let dm = det_of(matches, i);
            match dm {
                Some(j) => {
                    let mut d = dets[j];
                    d.timestamp = Some(pts);
                    self.trackers[i].update(Some(&d));
                },
                None => {
                    self.trackers[i].update(None);
                },
            }
            self.trackers[i].check_activate(min_hits);
            proof {
                let o = t0[i as int];
                let n = self.trackers@[i as int];
                assert(before[i as int] == o);
                if n.time_since_update < n.history@.len() {
                    let q = n.history@.len() - n.time_since_update - 1;
                    if q == n.history@.len() - 1 {
                        assert(n.history@[q].timestamp == o.history@[q].timestamp);
                    } else {
                        assert(n.history@[q] == o.history@[q]);
                    }
                }
                assert forall|k: int| 0 <= k < t0.len() && k != i implies #[trigger] self.trackers@[k]
                    == before[k] by {}
            }
            i += 1;
        }
    }

    /// Removes the trackers that have gone more than `max_age` frames
    /// without an update; returns the active ones among them with their
    /// predicted-only tail dropped.
    #[verifier::rlimit(60)]
    fn remove_dead(&mut self) -> (dead: Vec<KalmanBoxTracker<K>>)
        requires
            old(self).wf_core(),
        ensures
            final(self).wf(),
            final(self).trackers@ == live_part(old(self).trackers@, old(self).max_age),
            final(self).frame_count == old(self).frame_count,
            final(self).id_counter == old(self).id_counter,
            final(self).max_age == old(self).max_age,
            final(self).min_hits == old(self).min_hits,
            forall|x: int|
                0 <= x < dead@.len() ==> {
                    &&& (#[trigger] dead@[x]).active
                    &&& dead@[x].time_since_update > old(self).max_age
                    &&& dead@[x].id < old(self).id_counter
                    &&& exists|i: int|
                        0 <= i < old(self).trackers@.len() && old(self).trackers@[i].id
                            == dead@[x].id && dead@[x].history@ == old(
                            self,
                        ).trackers@[i].history@.take(
                            old(self).trackers@[i].history@.len()
                                - old(self).trackers@[i].time_since_update,
                        )
                },
            forall|x: int, y: int|
                0 <= x < y < dead@.len() ==> (#[trigger] dead@[x]).id < (#[trigger] dead@[y]).id,
            dead_of(old(self).trackers@, old(self).max_age, dead@),
            forall|x: int|
                0 <= x < dead@.len() && (#[trigger] dead@[x]).history@.len() > 0 ==> dead@[x].history@.last().timestamp
                    == Some(dead@[x].last_match),
            final(self).width == old(self).width,
            final(self).height == old(self).height,
    {
        let ghost t0 = self.trackers@;
        assert(t0.len() == self.trackers.len());
        let max_age = self.max_age;
        let mut rest: Vec<KalmanBoxTracker<K>> = Vec::new();
        std::mem::swap(&mut rest, &mut self.trackers);
        let mut dead: Vec<KalmanBoxTracker<K>> = Vec::new();
        let mut i: usize = 0;
        while rest.len() > 0
            invariant
                i <= t0.len(),
                t0.len() <= usize::MAX,
                rest@ == t0.skip(i as int),
                self.trackers@ == live_part(t0.take(i as int), max_age),
                self.frame_count == old(self).frame_count,
                self.id_counter == old(self).id_counter,
                self.max_age == max_age,
                max_age == old(self).max_age,
                self.min_hits == old(self).min_hits,
                forall|k: int|
                    0 <= k < t0.len() ==> {
                        &&& (#[trigger] t0[k]).wf()
                        &&& t0[k].age <= self.frame_count
                        &&& t0[k].id < self.id_counter
                    },
                forall|k: int, j: int| 0 <= k < j < t0.len() ==> t0[k].id < t0[j].id,
                forall|x: int|
                    0 <= x < self.trackers@.len() ==> exists|k: int|
                        0 <= k < i && #[trigger] self.trackers@[x] == t0[k],
                forall|x: int|
                    0 <= x < dead@.len() ==> exists|k: int|
                        0 <= k < i && (#[trigger] dead@[x]).id == t0[k].id && dead@[x].history@
                            == t0[k].history@.take(t0[k].history@.len() - t0[k].time_since_update)
                            && dead@[x].active && dead@[x].time_since_update > max_age,
                forall|x: int, y: int|
                    0 <= x < y < self.trackers@.len() ==> (#[trigger] self.trackers@[x]).id
                        < (#[trigger] self.trackers@[y]).id,
                forall|x: int, y: int|
                    0 <= x < y < dead@.len() ==> (#[trigger] dead@[x]).id < (#[trigger] dead@[y]).id,
                forall|x: int|
                    0 <= x < self.trackers@.len() ==> (#[trigger] self.trackers@[x]).time_since_update
                        <= max_age,
                dead_of(t0.take(i as int), max_age, dead@),
                forall|k: int| 0 <= k < t0.len() ==> stamped_tail(#[trigger] t0[k]),
                forall|x: int|
                    0 <= x < dead@.len() && (#[trigger] dead@[x]).history@.len() > 0 ==> dead@[x].history@.last().timestamp
                        == Some(dead@[x].last_match),
                self.width == old(self).width,
                self.height == old(self).height,
            decreases rest@.len(),
        {
            let mut t = rest.remove(0);
            proof {
                assert(t == t0[i as int]);
                assert(t0.take(i + 1).drop_last() =~= t0.take(i as int));
                assert(t0.take(i + 1).last() == t);
                assert(t0.skip(i + 1) =~= t0.skip(i as int).remove(0));
            }
            let ghost d0 = dead@;
            let ghost t_old = t;
            proof {
                lemma_dead_idx_push(t0, i as int, max_age);
            }
            if t.should_live(max_age) {
                self.trackers.push(t);
            } else if t.active {
                t.trim_dead_history();
                dead.push(t);
                proof {
                    assert(stamped_tail(t_old));
                    if t.history@.len() > 0 {
                        assert(t.history@.last() == t_old.history@[t_old.history@.len()
                            - t_old.time_since_update - 1]);
                    }
                }
            }
            proof {
                assert(t_old == t0[i as int]);
                if t_old.time_since_update > max_age && t_old.active {
                    assert(dead@ =~= d0.push(t));
                    assert(dead@.drop_last() =~= d0);
                    assert(trimmed(t0[i as int], t));
                    lemma_dead_of_step(t0, i as int, max_age, d0, dead@);
                } else {
                    assert(dead@ =~= d0);
                    lemma_dead_of_step(t0, i as int, max_age, d0, dead@);
                }
            }
            i += 1;
        }
        proof {
            assert(t0.take(i as int) =~= t0);
            assert(dead_of(t0, max_age, dead@));
        }
        dead
    }

    /// The trackers are as `predict_step` leaves them at time `pts`, ready
    /// for `apply_step`.
    pub open spec fn predicted_at(&self, pts: u64) -> bool {
        &&& self.wf_core()
        &&& forall|i: int|
            0 <= i < self.trackers@.len() ==> {
                &&& (#[trigger] self.trackers@[i]).history@.len() > 0
                &&& self.trackers@[i].hits < self.trackers@[i].age
                &&& self.trackers@[i].history@.last().timestamp == Some(pts)
                &&& self.trackers@[i].time_since_update <= self.max_age + 1
            }
    }

    /// The first half of a frame at time `pts`: predicts every tracker;
    /// returns the predicted boxes and whether each tracker is active, for
    /// the assignment.
    pub fn predict_step(&mut self, pts: u64) -> (r: (Vec<Bbox>, Vec<bool>))
        requires
            old(self).wf(),
            old(self).frame_count < u64::MAX,
        ensures
            final(self).predicted_at(pts),
            final(self).frame_count == old(self).frame_count + 1,
            final(self).id_counter == old(self).id_counter,
            final(self).max_age == old(self).max_age,
            final(self).min_hits == old(self).min_hits,
            final(self).width == old(self).width,
            final(self).height == old(self).height,
            final(self).trackers@.len() == old(self).trackers@.len(),
            forall|i: int|
                0 <= i < final(self).trackers@.len() ==> predicted(
                    old(self).trackers@[i],
                    #[trigger] final(self).trackers@[i],
                    pts,
                ),
            r.0@.len() == final(self).trackers@.len(),
            r.1@.len() == final(self).trackers@.len(),
            forall|i: int|
                0 <= i < r.1@.len() ==> r.1@[i] == (#[trigger] final(self).trackers@[i]).active,
    {
        self.frame_count = self.frame_count + 1;
        let preds = self.predict_all(pts);
        let active = self.active_flags();
        proof {
            assert forall|i: int| 0 <= i < self.trackers@.len() implies {
                &&& (#[trigger] self.trackers@[i]).history@.len() > 0
                &&& self.trackers@[i].hits < self.trackers@[i].age
                &&& self.trackers@[i].history@.last().timestamp == Some(pts)
                &&& self.trackers@[i].time_since_update <= self.max_age + 1
            } by {
                assert(predicted(old(self).trackers@[i], self.trackers@[i], pts));
                assert(old(self).trackers@[i].wf());
            }
        }
        (preds, active)
    }

    /// The second half of a frame at time `pts`: applies the pairs
    /// `(tracker, detection)` of `pairs` that form a one-to-one matching
    /// (`kept_matches`), updates and activates the trackers, removes the
    /// dead ones and starts a tracker for each unmatched detection. Returns
    /// the active trackers that died, trimmed.
    pub fn apply_step(&mut self, dets: Vec<Bbox>, pts: u64, pairs: &Vec<(usize, usize)>) -> (dead: Vec<
        KalmanBoxTracker<K>,
    >)
        requires
            old(self).predicted_at(pts),
            old(self).id_counter + dets@.len() <= u64::MAX,
        ensures
            final(self).wf(),
            final(self).frame_count == old(self).frame_count,
            exists|mid: Seq<KalmanBoxTracker<K>>|
                #[trigger] apply_with(
                    *old(self),
                    old(self).trackers@,
                    *final(self),
                    dets@,
                    pts,
                    dead@,
                    kept_matches(pairs@, old(self).trackers@.len(), dets@.len()),
                    mid,
                ),
            forall|x: int|
                0 <= x < dead@.len() && (#[trigger] dead@[x]).history@.len() > 0
                    ==> dead@[x].history@.last().timestamp == Some(dead@[x].last_match),
    {
        let ghost o = *self;
        let matches = filter_matches(pairs, self.trackers.len(), dets.len());
        self.apply_matches(&matches, &dets, pts);
        let ghost mid = self.trackers@;
        let dead = self.remove_dead();
        let ghost live = self.trackers@;
        assert(self.id_counter == o.id_counter);
        self.spawn(&dets, &matches, pts);
        proof {
            assert(live == live_part(mid, o.max_age));
            assert(self.trackers@.subrange(0, live.len() as int) == live);
            assert(apply_with(o, o.trackers@, *self, dets@, pts, dead@, matches@, mid));
        }
        dead
    }

    /// Runs the tracker on the detections `dets` of the frame at time `pts`
    /// (`predict_step`, the assignment by `matcher`, then `apply_step`) and
    /// returns the active trackers that died on it, with their
    /// predicted-only tail dropped.
    pub fn update<M: Matcher>(&mut self, dets: Vec<Bbox>, pts: u64, matcher: &M) -> (dead: Vec<
        KalmanBoxTracker<K>,
    >)
        requires
            old(self).wf(),
            old(self).frame_count < u64::MAX,
            old(self).id_counter + dets@.len() <= u64::MAX,
        ensures
            final(self).wf(),
            sort_step(*old(self), *final(self), dets@, pts, dead@),
            forall|x: int|
                0 <= x < dead@.len() && (#[trigger] dead@[x]).history@.len() > 0
                    ==> dead@[x].history@.last().timestamp == Some(dead@[x].last_match),
    {
        let ghost o = *self;
        let (preds, active) = self.predict_step(pts);
        let ghost p = *self;
        let raw = matcher.assign(&preds, &active, &dets);
        let dead = self.apply_step(dets, pts, &raw);
        proof {
            let mid = choose|mid: Seq<KalmanBoxTracker<K>>|
                #[trigger] apply_with(
                    p,
                    p.trackers@,
                    *self,
                    dets@,
                    pts,
                    dead@,
                    kept_matches(raw@, p.trackers@.len(), dets@.len()),
                    mid,
                );
            assert(apply_with(
                o,
                p.trackers@,
                *self,
                dets@,
                pts,
                dead@,
                kept_matches(raw@, p.trackers@.len(), dets@.len()),
                mid,
            ));
            assert(step_with(
                o,
                *self,
                dets@,
                pts,
                dead@,
                kept_matches(raw@, p.trackers@.len(), dets@.len()),
                p.trackers@,
                mid,
            ));
        }
        dead
    }

    /// Marks time `ts` as seen on every tracker.
    pub fn mark_seen(&mut self, ts: u64)
        requires
            old(self).wf(),
        ensures
            final(self).wf(),
            final(self).trackers@.len() == old(self).trackers@.len(),
            forall|i: int|
                0 <= i < final(self).trackers@.len() ==> seen_marked(
                    old(self).trackers@[i],
                    #[trigger] final(self).trackers@[i],
                    ts,
                    true,
                ),
            final(self).frame_count == old(self).frame_count,
            final(self).id_counter == old(self).id_counter,
            final(self).max_age == old(self).max_age,
            final(self).min_hits == old(self).min_hits,
            marked_seen(*old(self), *final(self), seq![ts]),
    {
        self.mark_where(ts, false);
        proof {
            assert forall|i: int| 0 <= i < self.trackers@.len() implies (#[trigger] self.trackers@[i]).seen_ts@
                == old(self).trackers@[i].seen_ts@ + seq![ts] by {
                assert(old(self).trackers@[i].seen_ts@.push(ts) =~= old(self).trackers@[i].seen_ts@
                    + seq![ts]);
            }
        }
    }

    /// Marks time `ts` as seen on every active tracker that started at or
    /// before `ts`.
    pub fn mark_active_seen(&mut self, ts: u64)
        requires
            old(self).wf(),
        ensures
            final(self).wf(),
            final(self).trackers@.len() == old(self).trackers@.len(),
            forall|i: int|
                0 <= i < final(self).trackers@.len() ==> seen_marked(
                    old(self).trackers@[i],
                    #[trigger] final(self).trackers@[i],
                    ts,
                    old(self).trackers@[i].active && old(self).trackers@[i].start <= ts,
                ),
            final(self).frame_count == old(self).frame_count,
            final(self).id_counter == old(self).id_counter,
            final(self).max_age == old(self).max_age,
            final(self).min_hits == old(self).min_hits,
    {
        self.mark_where(ts, true);
    }

    fn mark_where(&mut self, ts: u64, only_active: bool)
        requires
            old(self).wf(),
        ensures
            final(self).wf(),
            final(self).trackers@.len() == old(self).trackers@.len(),
            forall|i: int|
                0 <= i < final(self).trackers@.len() ==> seen_marked(
                    old(self).trackers@[i],
                    #[trigger] final(self).trackers@[i],
                    ts,
                    !only_active || (old(self).trackers@[i].active && old(self).trackers@[i].start
                        <= ts),
                ),
            final(self).frame_count == old(self).frame_count,
            final(self).id_counter == old(self).id_counter,
            final(self).max_age == old(self).max_age,
            final(self).min_hits == old(self).min_hits,
            final(self).width == old(self).width,
            final(self).height == old(self).height,
    {
        let ghost t0 = self.trackers@;
        let mut i: usize = 0;
        while i < self.trackers.len()
            invariant
                i <= self.trackers@.len(),
                self.trackers@.len() == t0.len(),
                t0 == old(self).trackers@,
                self.frame_count == old(self).frame_count,
                self.id_counter == old(self).id_counter,
                self.max_age == old(self).max_age,
                self.min_hits == old(self).min_hits,
                forall|k: int|
                    0 <= k < i ==> seen_marked(
                        t0[k],
                        #[trigger] self.trackers@[k],
                        ts,
                        !only_active || (t0[k].active && t0[k].start <= ts),
                    ),
                forall|k: int| i <= k < t0.len() ==> #[trigger] self.trackers@[k] == t0[k],
                self.width == old(self).width,
                self.height == old(self).height,
                old(self).wf(),
            decreases t0.len() - i,
        {
            if !only_active || (self.trackers[i].active && self.trackers[i].start <= ts) {
                self.trackers[i].seen_ts.push(ts);
            }
            i += 1;
        }
        proof {
            assert forall|k: int| 0 <= k < self.trackers@.len() implies (#[trigger] self.trackers@[k]).wf() by {
                assert(seen_marked(t0[k], self.trackers@[k], ts, !only_active || (t0[k].active && t0[k].start <= ts)));
                assert(t0[k].wf());
            }
        }
    }

    /// Whether some tracker is active.
    pub fn any_valid(&self) -> (r: bool)
        ensures
            r == exists|i: int| 0 <= i < self.trackers@.len() && (#[trigger] self.trackers@[i]).active,
    {
        let mut i: usize = 0;
        while i < self.trackers.len()
            invariant
                i <= self.trackers@.len(),
                forall|k: int| 0 <= k < i ==> !(#[trigger] self.trackers@[k]).active,
            decreases self.trackers@.len() - i,
        {
            if self.trackers[i].active {
                return true;
            }
            i += 1;
        }
        false
    }

    /// At the end of the stream: removes every active tracker and returns
    /// those whose history is longer than `min_hits`.
    pub fn finalize(&mut self) -> (done: Vec<KalmanBoxTracker<K>>)
        requires
            old(self).wf(),
        ensures
            final(self).wf(),
            final(self).trackers@ == inactive_part(old(self).trackers@),
            final(self).frame_count == old(self).frame_count,
            final(self).id_counter == old(self).id_counter,
            final(self).max_age == old(self).max_age,
            final(self).min_hits == old(self).min_hits,
            forall|x: int|
                0 <= x < done@.len() ==> {
                    &&& (#[trigger] done@[x]).active
                    &&& done@[x].history@.len() > old(self).min_hits
                    &&& exists|i: int|
                        0 <= i < old(self).trackers@.len() && old(self).trackers@[i] == done@[x]
                },
            done@ == done_part(old(self).trackers@, old(self).min_hits),
            forall|i: int|
                0 <= i < old(self).trackers@.len() && (#[trigger] old(self).trackers@[i]).active
                    && old(self).trackers@[i].history@.len() > old(self).min_hits ==> exists|x: int|
                    0 <= x < done@.len() && done@[x] == old(self).trackers@[i],
    {
        let ghost t0 = self.trackers@;
        assert(t0.len() == self.trackers.len());
        let min_hits = self.min_hits;
        let mut rest: Vec<KalmanBoxTracker<K>> = Vec::new();
        std::mem::swap(&mut rest, &mut self.trackers);
        let mut done: Vec<KalmanBoxTracker<K>> = Vec::new();
        let mut i: usize = 0;
        while rest.len() > 0
            invariant
                i <= t0.len(),
                t0.len() <= usize::MAX,
                t0 == old(self).trackers@,
                rest@ == t0.skip(i as int),
                self.trackers@ == inactive_part(t0.take(i as int)),
                self.frame_count == old(self).frame_count,
                self.id_counter == old(self).id_counter,
                self.max_age == old(self).max_age,
                self.min_hits == min_hits,
                min_hits == old(self).min_hits,
                old(self).wf(),
                forall|x: int|
                    0 <= x < self.trackers@.len() ==> exists|k: int|
                        0 <= k < i && #[trigger] self.trackers@[x] == t0[k],
                forall|x: int, y: int|
                    0 <= x < y < self.trackers@.len() ==> (#[trigger] self.trackers@[x]).id
                        < (#[trigger] self.trackers@[y]).id,
                forall|x: int|
                    0 <= x < self.trackers@.len() ==> (#[trigger] self.trackers@[x]).id
                        < t0[i as int].id || i == t0.len(),
                forall|x: int|
                    0 <= x < done@.len() ==> {
                        &&& (#[trigger] done@[x]).active
                        &&& done@[x].history@.len() > min_hits
                        &&& exists|k: int| 0 <= k < t0.len() && t0[k] == done@[x]
                    },
                forall|k: int|
                    0 <= k < i && (#[trigger] t0[k]).active && t0[k].history@.len() > min_hits
                        ==> exists|x: int| 0 <= x < done@.len() && done@[x] == t0[k],
                done@ == done_part(t0.take(i as int), min_hits),
            decreases rest@.len(),
        {
            let t = rest.remove(0);
            let ghost done0 = done@;
            proof {
                assert(t == t0[i as int]);
                assert(t0.take(i + 1).drop_last() =~= t0.take(i as int));
                assert(t0.take(i + 1).last() == t);
                assert(t0.skip(i + 1) =~= t0.skip(i as int).remove(0));
            }
            if !t.active {
                self.trackers.push(t);
            } else if t.history.len() as u64 > min_hits {
                done.push(t);
                proof {
                    assert(done@[done@.len() - 1] == t0[i as int]);
                }
            }
            proof {
                assert forall|k: int|
                    0 <= k < i && (#[trigger] t0[k]).active && t0[k].history@.len() > min_hits
                        implies exists|x: int| 0 <= x < done@.len() && done@[x] == t0[k] by {
                    let x = choose|x: int| 0 <= x < done0.len() && done0[x] == t0[k];
                    assert(done@[x] == done0[x]);
                }
            }
            i += 1;
        }
        proof {
            assert(t0.take(i as int) =~= t0);
        }
        done
    }

    /// Starts a tracker, with a fresh id, for each detection that no pair
    /// of `matches` names.
    fn spawn(&mut self, dets: &Vec<Bbox>, matches: &Vec<(usize, usize)>, pts: u64)
        requires
            old(self).wf(),
            old(self).id_counter + dets@.len() <= u64::MAX,
        ensures
            final(self).wf(),
            final(self).frame_count == old(self).frame_count,
            final(self).max_age == old(self).max_age,
            final(self).min_hits == old(self).min_hits,
            final(self).id_counter - old(self).id_counter == final(self).trackers@.len() - old(
                self,
            ).trackers@.len(),
            old(self).id_counter <= final(self).id_counter <= old(self).id_counter + dets@.len(),
            final(self).id_counter - old(self).id_counter == unmatched_count(
                matches@,
                dets@.len() as int,
            ),
            final(self).trackers@.subrange(0, old(self).trackers@.len() as int) == old(
                self,
            ).trackers@,
            forall|k: int|
                old(self).trackers@.len() <= k < final(self).trackers@.len() ==> {
                    &&& (#[trigger] final(self).trackers@[k]).id == old(self).id_counter + (k - old(
                        self,
                    ).trackers@.len())
                    &&& fresh_tracker(
                        final(self).trackers@[k],
                        (old(self).id_counter + (k - old(self).trackers@.len())) as u64,
                        pts,
                    )
                },
            final(self).width == old(self).width,
            final(self).height == old(self).height,
    {
        let ghost t0 = self.trackers@;
        let ghost c0 = self.id_counter;
        let mut j: usize = 0;
        while j < dets.len()
            invariant
                j <= dets@.len(),
                c0 == old(self).id_counter,
                c0 + dets@.len() <= u64::MAX,
                self.id_counter - c0 == self.trackers@.len() - t0.len(),
                self.id_counter - c0 == unmatched_count(matches@, j as int),
                c0 <= self.id_counter <= c0 + j,
                self.frame_count == old(self).frame_count,
                self.max_age == old(self).max_age,
                self.min_hits == old(self).min_hits,
                self.trackers@.len() >= t0.len(),
                self.trackers@.subrange(0, t0.len() as int) == t0,
                self.wf(),
                forall|k: int|
                    t0.len() <= k < self.trackers@.len() ==> {
                        &&& (#[trigger] self.trackers@[k]).id == c0 + (k - t0.len())
                        &&& fresh_tracker(self.trackers@[k], (c0 + (k - t0.len())) as u64, pts)
                    },
                self.width == old(self).width,
                self.height == old(self).height,
                t0 == old(self).trackers@,
                forall|k: int| 0 <= k < t0.len() ==> (#[trigger] t0[k]).id < c0,
            decreases dets@.len() - j,
        {
            let m = is_matched_det(matches, j);
            if !m {
                let t = KalmanBoxTracker::new(self.id_counter, &dets[j], pts);
                let ghost before = self.trackers@;
                self.trackers.push(t);
                self.id_counter = self.id_counter + 1;
                proof {
                    assert(self.trackers@.subrange(0, t0.len() as int) =~= before.subrange(
                        0,
                        t0.len() as int,
                    ));
                    assert forall|k: int| 0 <= k < self.trackers@.len() - 1 implies (#[trigger] self.trackers@[k]).id
                        < t.id by {
                        if k < t0.len() {
                            assert(self.trackers@[k] == t0[k]);
                        } else {
                            assert(self.trackers@[k] == before[k]);
                        }
                    }
                }
            }
            proof {
                assert(unmatched_count(matches@, j + 1) == unmatched_count(matches@, j as int) + if m {
                    0int
                } else {
                    1int
                });
            }
            j += 1;
        }
    }
}

proof fn lemma_unmatched_none(m: Seq<(usize, usize)>, n: int)
    requires
        m.len() == 0,
        n >= 0,
    ensures
        unmatched_count(m, n) == n,
    decreases n,
{
    if n > 0 {
        lemma_unmatched_none(m, n - 1);
    }
}

/// On an engine with no trackers, one frame starts one tracker per
/// detection, numbered from `id_counter` in detection order, and no track
/// dies: a run from a new engine numbers its tracks 0, 1, 2, ... as they
/// first appear.
pub proof fn lemma_fresh_engine_spawns_all<K>(
    old: Sort<K>,
    new: Sort<K>,
    dets: Seq<Bbox>,
    pts: u64,
    dead: Seq<KalmanBoxTracker<K>>,
)
    requires
        old.trackers@.len() == 0,
        sort_step(old, new, dets, pts, dead),
    ensures
        new.trackers@.len() == dets.len(),
        new.id_counter == old.id_counter + dets.len(),
        dead.len() == 0,
        forall|k: int|
            0 <= k < dets.len() ==> fresh_tracker(
                #[trigger] new.trackers@[k],
                (old.id_counter + k) as u64,
                pts,
            ),
{
    let (m, pred, mid) = choose|m: Seq<(usize, usize)>, pred: Seq<KalmanBoxTracker<K>>, mid: Seq<
        KalmanBoxTracker<K>,
    >| step_with(old, new, dets, pts, dead, m, pred, mid);
    if m.len() > 0 {
        assert(m[0].0 < 0);
    }
    lemma_unmatched_none(m, dets.len() as int);
    assert(mid.len() == 0);
    assert(live_part(mid, old.max_age).len() == 0);
    assert(dead_idx(mid, old.max_age).len() == 0);
}

impl<K: MotionFilter> Default for Sort<K> {
    /// An engine for a 160 by 90 macroblock frame that keeps a tracker for
    /// 3 frames without a match and activates it after 3 matches in a row.
    fn default() -> (r: Self)
        ensures
            r.width == 160,
            r.height == 90,
            r.max_age == 3,
            r.min_hits == 3,
            r.trackers@.len() == 0,
            r.frame_count == 0,
            r.id_counter == 0,
            r.wf(),
    {
        Sort::new(160, 90, 3, 3)
    }
}

} // verus!
