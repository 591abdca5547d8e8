use cova::assoc::{
    check_track, vote_classes, AssocError, Associator, Overlap, Stationary, STATIONARY_STEP_NS,
};
use cova::bbox::Bbox;

fn b(left: f32, top: f32, width: f32, height: f32) -> Bbox {
    Bbox::new(left.to_bits(), top.to_bits(), width.to_bits(), height.to_bits(), (width * height).to_bits())
}

fn sorted(mut v: Vec<u32>) -> Vec<u32> {
    v.sort();
    v
}

/// Decides overlaps by fixed answers.
struct Fixed {
    track: bool,
    stationary: bool,
}

impl Overlap for Fixed {
    fn track_matches(&self, _trk: &Bbox, _det: &Bbox, _strict: bool) -> bool {
        self.track
    }
    fn best_stationary(&self, cands: &Vec<Bbox>, _det: &Bbox) -> Option<usize> {
        if self.stationary && !cands.is_empty() {
            Some(0)
        } else {
            None
        }
    }
}

fn det(ts: u64, class: u32) -> Bbox {
    let mut d = b(10., 10., 4., 4.);
    d.timestamp = Some(ts);
    d.class_id = Some(class);
    d
}

fn track(id: u64, times: &[u64]) -> Vec<Bbox> {
    times
        .iter()
        .map(|t| {
            let mut x = b(10., 10., 4., 4.);
            x.track_id = Some(id);
            x.timestamp = Some(*t);
            x
        })
        .collect()
}

#[test]
fn votes_majority_only() {
    assert_eq!(vote_classes(&vec![1, 1, 1, 2, 2]), vec![1, 2]);
    let r = vote_classes(&vec![1, 1, 1, 2]);
    assert_eq!(r, vec![1]);
}

#[test]
fn votes_all_single() {
    assert_eq!(sorted(vote_classes(&vec![1, 2, 3, 4])), vec![1, 2, 3, 4]);
}

#[test]
fn votes_two_pairs() {
    let r = vote_classes(&vec![1, 1, 2, 2, 3]);
    assert_eq!(sorted(r.clone()), vec![1, 2]);
    assert!(r[0] == 1 || r[0] == 2);
}

#[test]
fn votes_none() {
    assert!(vote_classes(&vec![]).is_empty());
}

#[test]
fn voting_scenario_threshold() {
    // A: 3 votes, B: 1 vote: only A
    assert_eq!(vote_classes(&vec![0, 0, 0, 1]), vec![0]);
    // A: 3, B: 2 gives both, A first
    assert_eq!(vote_classes(&vec![0, 0, 0, 1, 1])[0], 0);
}

#[test]
fn stationary_series() {
    let mut d = det(0, 5);
    d.track_id = None;
    let mut s = Stationary::new(0, u64::MAX, d);
    s.update(det(10_000_000_000, 5));
    s.track_id = Some(42);
    let v = s.to_vec();
    assert_eq!(v.len(), 200);
    assert_eq!(v[0].timestamp, Some(0));
    assert_eq!(v[1].timestamp, Some(STATIONARY_STEP_NS));
    assert_eq!(v[2].timestamp, Some(100_000_000));
    assert_eq!(v[3].timestamp, Some(133_333_333));
    assert_eq!(v[199].timestamp, Some(9_933_333_333));
    assert!(v.iter().all(|x| x.track_id == Some(42)));
}

#[test]
fn single_sighting_gives_no_series() {
    let s = Stationary::new(0, u64::MAX, det(500, 1));
    assert!(s.to_vec().is_empty());
}

#[test]
fn ranges_from_starts() {
    let mut a = Associator::new(120);
    a.set_ranges(vec![300, 100, 200]);
    assert_eq!(a.tracker_range, vec![(100, 200), (200, 300), (300, u64::MAX)]);
    assert_eq!(a.range_end_of(200), Some(300));
    assert_eq!(a.range_end_of(150), None);
}

#[test]
fn track_checks() {
    assert!(check_track(&track(1, &[1, 2, 3])));
    assert!(!check_track(&track(1, &[3, 2])));
    assert!(!check_track(&vec![]));
    let mut t = track(1, &[1, 2]);
    t[1].track_id = Some(2);
    assert!(!check_track(&t));
}

#[test]
fn unknown_shard_and_bad_input() {
    let mut a = Associator::new(120);
    a.set_ranges(vec![0]);
    let g = Fixed { track: true, stationary: true };
    assert_eq!(a.update_track(5, 0, track(1, &[1]), &g), Err(AssocError::UnknownShard));
    assert_eq!(a.update_track(0, 0, track(1, &[2, 1]), &g), Err(AssocError::MalformedTrack));
    let mut d = det(1, 1);
    d.class_id = None;
    assert_eq!(a.update_dnn(vec![d], &g), Err(AssocError::MalformedDetection));
    assert!(a.track_rows.is_empty() && a.dnn_rows.is_empty());
}

#[test]
fn track_takes_class_of_pending_detections() {
    let mut a = Associator::new(120);
    a.set_ranges(vec![0]);
    let g = Fixed { track: true, stationary: false };
    a.update_dnn(vec![det(2, 7)], &g).unwrap();
    a.update_dnn(vec![det(3, 7)], &g).unwrap();
    a.update_track(0, 10, track(4, &[1, 2, 3]), &g).unwrap();
    assert_eq!(a.max_track_id, 4);
    assert_eq!(a.track_rows.len(), 3);
    // a later detection settles the track
    a.update_dnn(vec![det(20, 9)], &g).unwrap();
    assert_eq!(a.assoc_rows.len(), 3);
    assert!(a.assoc_rows.iter().all(|r| r.class_id == Some(7) && r.track_id == Some(4)));
    assert!(a.tracks.is_empty());
}

#[test]
fn detection_at_range_end_is_not_settled_by_that_shard() {
    let mut a = Associator::new(120);
    a.set_ranges(vec![0, 100]);
    let g = Fixed { track: false, stationary: false };
    a.update_dnn(vec![det(100, 1)], &g).unwrap();
    a.finalize_dnn(0, 100, 1_000, &g);
    assert_eq!(a.dnns.len(), 1);
    assert!(a.stationary.is_empty());
    a.finalize_dnn(100, u64::MAX, 1_000, &g);
    assert!(a.dnns.is_empty());
    assert_eq!(a.stationary.len(), 1);
}

#[test]
fn stationary_synthesis_end_to_end() {
    let mut a = Associator::new(120);
    a.set_ranges(vec![0]);
    let g = Fixed { track: false, stationary: true };
    a.update_dnn(vec![det(0, 5)], &g).unwrap();
    a.update_dnn(vec![det(10_000_000_000, 5)], &g).unwrap();
    // a track whose shard's oldest live track started later retires both
    a.update_track(0, 20_000_000_000, track(9, &[15_000_000_000]), &g).unwrap();
    assert_eq!(a.stationary.len(), 1);
    assert_eq!(a.stationary[0].start, 0);
    assert_eq!(a.stationary[0].end, 10_000_000_000);
    // silence for longer than the maximum age, then another detection
    a.update_dnn(vec![det(130_000_000_001, 6)], &g).unwrap();
    assert_eq!(a.finalized_stationary.len(), 1);
    a.terminate(&g).unwrap();
    assert_eq!(a.stationary_rows.len(), 200);
    assert!(a.stationary_rows.iter().all(|r| r.track_id == Some(10)));
    assert!(a.stationary_rows.iter().all(|r| r.track_id.unwrap() > a.max_track_id));
    assert_eq!(a.stationary_rows[1].timestamp, Some(33_333_333));
    assert!(a.stationary_rows.iter().all(|r| r.timestamp.unwrap() <= 10_000_000_000));
}

#[test]
fn single_sighting_is_not_finished() {
    let mut a = Associator::new(120);
    a.set_ranges(vec![0]);
    let g = Fixed { track: false, stationary: true };
    a.update_dnn(vec![det(0, 5)], &g).unwrap();
    a.update_track(0, 20_000_000_000, track(9, &[15_000_000_000]), &g).unwrap();
    assert_eq!(a.stationary.len(), 1);
    a.update_dnn(vec![det(130_000_000_001, 6)], &g).unwrap();
    assert!(a.stationary.iter().all(|s| s.class_id != 5));
    assert!(a.finalized_stationary.is_empty());
}

#[test]
fn detection_at_range_end_does_not_vote_for_that_shard() {
    let mut a = Associator::new(120);
    a.set_ranges(vec![0, 100]);
    let g = Fixed { track: true, stationary: false };
    a.update_track(0, 0, track(3, &[50, 100]), &g).unwrap();
    a.update_dnn(vec![det(100, 4)], &g).unwrap();
    assert!(a.track2class.is_empty());
    assert!(!a.dnns.last().unwrap().matched);
}

#[test]
fn terminate_flushes_stationary_objects() {
    let mut a = Associator::new(120);
    a.set_ranges(vec![0]);
    let g = Fixed { track: false, stationary: true };
    a.update_dnn(vec![det(0, 5)], &g).unwrap();
    a.update_dnn(vec![det(10_000_000_000, 5)], &g).unwrap();
    a.update_track(0, 20_000_000_000, track(9, &[15_000_000_000]), &g).unwrap();
    a.terminate(&g).unwrap();
    assert!(a.tracks.is_empty());
    assert!(a.stationary.is_empty());
    assert_eq!(a.finalized_stationary.len(), 1);
    assert_eq!(a.stationary_rows.len(), 200);
    assert!(a.stationary_rows.iter().all(|r| r.track_id == Some(10)));
}
