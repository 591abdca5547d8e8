use cova::bbox::Bbox;
use cova::client::Tracker;
use cova::sort::{filter_matches, Matcher, Sort};
use cova::tracker::{KalmanBoxTracker, MotionFilter};

fn b(left: f32, top: f32, width: f32, height: f32) -> Bbox {
    Bbox::new(left.to_bits(), top.to_bits(), width.to_bits(), height.to_bits(), (width * height).to_bits())
}

/// A motion estimate that stays where the object was last seen.
struct Still(Bbox);

impl MotionFilter for Still {
    fn init(det: &Bbox) -> Self {
        Still(*det)
    }
    fn predict(&mut self) -> Bbox {
        Bbox { track_id: None, timestamp: None, class_id: None, confidence: None, ..self.0 }
    }
    fn correct(&mut self, det: &Bbox) {
        self.0 = *det;
    }
}

/// Pairs prediction i with detection i.
struct Diagonal;

impl Matcher for Diagonal {
    fn assign(&self, preds: &Vec<Bbox>, _active: &Vec<bool>, dets: &Vec<Bbox>) -> Vec<(usize, usize)> {
        (0..preds.len().min(dets.len())).map(|i| (i, i)).collect()
    }
}

struct Nothing;

impl Matcher for Nothing {
    fn assign(&self, _p: &Vec<Bbox>, _a: &Vec<bool>, _d: &Vec<Bbox>) -> Vec<(usize, usize)> {
        vec![]
    }
}

/// Returns a fixed, possibly invalid, answer.
struct Given(Vec<(usize, usize)>);

impl Matcher for Given {
    fn assign(&self, _p: &Vec<Bbox>, _a: &Vec<bool>, _d: &Vec<Bbox>) -> Vec<(usize, usize)> {
        self.0.clone()
    }
}

#[test]
fn test_new_sort() {
    let mut sort: Sort<Still> = Default::default();
    let dets = vec![b(0., 0., 2., 2.), b(1., 1., 2., 2.)];
    sort.update(dets.clone(), 0, &Nothing);
    assert_eq!(sort.frame_count, 1);
    assert_eq!(sort.trackers.len(), 2);
    for (i, trk) in sort.trackers.iter().enumerate() {
        assert_eq!(trk.filter.0, dets[i]);
    }
}

#[test]
fn test_obeservation_model() {
    let mut sort: Sort<Still> = Default::default();
    let dets = vec![b(0., 0., 2., 2.), b(1., 1., 2., 2.)];
    sort.update(dets.clone(), 0, &Nothing);
    assert_eq!(sort.trackers.len(), 2);
    sort.trackers.iter_mut().for_each(|trk| {
        trk.predict(0);
    });
    assert_eq!(sort.trackers.len(), 2);
    let ids: Vec<u64> = sort.trackers.iter().map(|t| t.id).collect();
    assert_eq!(ids, vec![0, 1]);
    for (i, trk) in sort.trackers.iter().enumerate() {
        let mut state = *trk.history.last().unwrap();
        assert_eq!(state.track_id, Some(i as u64));
        assert_eq!(state.timestamp, Some(0));
        state.track_id = None;
        state.timestamp = None;
        assert_eq!(state, dets[i]);
    }
}

#[test]
fn create_tracker() {
    let bbox = b(0., 0., 2., 2.);
    let mut tracker: KalmanBoxTracker<Still> = KalmanBoxTracker::new(0, &bbox, 0);
    let _prior_bbox = tracker.predict(0);
    let mut next_bbox = b(1., 1., 2., 2.);
    next_bbox.timestamp = Some(0);
    next_bbox.class_id = Some(3);
    tracker.update(Some(&next_bbox));
    assert_eq!(tracker.hits, 1);
    assert_eq!(tracker.hit_streaks, 1);
    assert_eq!(tracker.history.last().unwrap().class_id, Some(3));
}

#[test]
fn tracker_lifecycle() {
    let mut t: KalmanBoxTracker<Still> = KalmanBoxTracker::new(3, &b(0., 0., 2., 2.), 100);
    for k in 0..5u64 {
        t.predict(100 + k);
        let mut d = b(0., 0., 2., 2.);
        d.timestamp = Some(100 + k);
        t.update(Some(&d));
        t.check_activate(3);
    }
    assert!(t.active);
    assert_eq!(t.time_since_update, 0);
    assert_eq!(t.last_match, 104);
    t.predict(105);
    t.update(None);
    t.predict(106);
    t.update(None);
    assert_eq!(t.hit_streaks, 0);
    assert_eq!(t.time_since_update, 2);
    assert!(t.should_live(2));
    assert!(!t.should_live(1));
    assert_eq!(t.location_at(106).unwrap().timestamp, Some(106));
    assert!(t.location_at(200).is_none());
    t.trim_dead_history();
    assert_eq!(t.history.len(), 5);
    assert_eq!(t.history.last().unwrap().timestamp, Some(t.last_match));
    assert!(!t.is_seen());
    t.seen_ts.push(102);
    assert!(t.is_seen());
}

#[test]
fn matches_are_made_one_to_one() {
    assert_eq!(filter_matches(&vec![(0, 0), (0, 1), (1, 0), (1, 2), (5, 0)], 2, 3), vec![(0, 0), (1, 2)]);
}

#[test]
fn ids_are_dense_and_dead_tracks_are_active() {
    let mut sort: Sort<Still> = Sort::new(160, 90, 4, 2);
    let two = vec![b(0., 0., 2., 2.), b(5., 5., 2., 2.)];
    sort.update(two.clone(), 0, &Nothing);
    for pts in 1..6u64 {
        assert!(sort.update(two.clone(), pts, &Diagonal).is_empty());
    }
    assert!(sort.any_valid());
    assert_eq!(sort.id_counter, 2);
    assert_eq!(sort.trackers[0].last_match, 5);
    for pts in 6..10u64 {
        assert!(sort.update(vec![], pts, &Nothing).is_empty());
    }
    let dead = sort.update(vec![b(9., 9., 1., 1.)], 10, &Nothing);
    assert_eq!(dead.len(), 2);
    assert!(dead.iter().all(|t| t.active));
    assert_eq!(dead[0].id, 0);
    assert_eq!(dead[1].id, 1);
    assert_eq!(dead[0].history.len(), 5);
    assert_eq!(dead[0].history.last().unwrap().timestamp, Some(dead[0].last_match));
    assert_eq!(sort.trackers.len(), 1);
    assert_eq!(sort.trackers[0].id, 2);
    assert!(sort.trackers.iter().all(|t| t.time_since_update <= sort.max_age));
}

#[test]
fn invalid_matches_are_ignored() {
    let mut sort: Sort<Still> = Sort::new(160, 90, 3, 3);
    sort.update(vec![b(0., 0., 2., 2.)], 0, &Nothing);
    sort.update(vec![b(0., 0., 2., 2.)], 1, &Given(vec![(0, 7), (3, 0)]));
    assert_eq!(sort.trackers.len(), 2);
    assert_eq!(sort.trackers[0].hits, 0);
}

#[test]
fn mark_seen_and_finalize() {
    let mut sort: Sort<Still> = Sort::new(160, 90, 5, 1);
    sort.update(vec![b(0., 0., 2., 2.)], 10, &Nothing);
    sort.update(vec![b(0., 0., 2., 2.)], 11, &Diagonal);
    sort.update(vec![b(0., 0., 2., 2.)], 12, &Diagonal);
    sort.mark_active_seen(9);
    assert!(sort.trackers[0].seen_ts.is_empty());
    sort.mark_active_seen(11);
    assert_eq!(sort.trackers[0].seen_ts, vec![11]);
    sort.mark_seen(12);
    assert_eq!(sort.trackers[0].seen_ts, vec![11, 12]);
    let done = sort.finalize();
    assert_eq!(done.len(), 1);
    assert!(sort.trackers.is_empty());
}

#[test]
fn shard_client_reports_and_encodes() {
    let mut t: Tracker<Still> = Tracker::new(45, 80, 0, 1);
    assert_eq!(t.get_oldest_timestamp(), u64::MAX);
    let out = t.update(vec![b(0., 0., 2., 2.)], 1_000, &Nothing);
    assert!(out.min_required.is_none());
    assert!(out.records.is_empty());
    assert_eq!(t.range_start, Some(1_000));
    assert_eq!(t.get_oldest_timestamp(), 1_000);
    let out = t.update(vec![b(0., 0., 2., 2.)], 1_001, &Diagonal);
    assert_eq!(out.min_required, Some(1_000));
    assert_eq!(out.records.len(), 1);
    let rec = &out.records[0];
    let len = u32::from_be_bytes([rec[0], rec[1], rec[2], rec[3]]) as usize;
    assert_eq!(len, rec.len() - 4);
    let f = cova::bbox::Frame::de(&rec[4..]).unwrap();
    assert_eq!(f.range_start, 1_000);
    assert_eq!(f.oldest, u64::MAX);
    let done = t.flush();
    assert!(done.records.is_empty() && done.dead.is_empty());
}

#[test]
fn match_dets_one_holdover() {
    let mut sort: Sort<Still> = Default::default();
    sort.update(vec![b(0., 0., 4., 4.), b(1., 1., 4., 4.)], 0, &Nothing);
    let (preds, active) = sort.predict_step(1);
    assert_eq!(preds.len(), 2);
    assert_eq!(active, vec![false, false]);
    let dets = vec![b(1., 1., 4., 4.), b(2., 2., 4., 4.), b(3., 3., 4., 4.)];
    let dead = sort.apply_step(dets, 1, &vec![(1, 0)]);
    assert!(dead.is_empty());
    let ids: Vec<u64> = sort.trackers.iter().map(|t| t.id).collect();
    assert_eq!(ids, vec![0, 1, 2, 3]);
    assert_eq!(sort.trackers[1].hits, 1);
    assert_eq!(sort.trackers[0].hits, 0);
    assert_eq!(sort.trackers[2].start, 1);
    assert_eq!(sort.trackers[3].start, 1);
}
