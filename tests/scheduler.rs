use cova::bbox::Bbox;
use cova::scheduler::{EncFrame, Scheduler, Settings};
use cova::sort::Matcher;
use cova::tracker::MotionFilter;

fn b(left: f32, top: f32, width: f32, height: f32) -> Bbox {
    Bbox::new(left.to_bits(), top.to_bits(), width.to_bits(), height.to_bits(), (width * height).to_bits())
}

struct Still(Bbox);

impl MotionFilter for Still {
    fn init(det: &Bbox) -> Self {
        Still(*det)
    }
    fn predict(&mut self) -> Bbox {
        Bbox { track_id: None, timestamp: None, class_id: None, confidence: None, ..self.0 }
    }
    fn correct(&mut self, det: &Bbox) {
        self.0 = *det;
    }
}

struct Diagonal;

impl Matcher for Diagonal {
    fn assign(&self, preds: &Vec<Bbox>, _active: &Vec<bool>, dets: &Vec<Bbox>) -> Vec<(usize, usize)> {
        (0..preds.len().min(dets.len())).map(|i| (i, i)).collect()
    }
}

const MS: u64 = 1_000_000;

fn frame(pts: u64, delta: bool) -> EncFrame<u32> {
    EncFrame { pts, delta, droppable: false, discont: false, buf: pts as u32 }
}

fn settings(alpha: u32, beta: u32) -> Settings {
    Settings { sort_maxage: 0, sort_minhits: 1, alpha, beta, infer_i: false }
}

fn total(s: &Scheduler<u32, Still>) -> u64 {
    s.counts.decoded_dependency + s.counts.decoded_inference + s.counts.dropped
}

#[test]
fn encoded_frames_form_gops() {
    let mut s: Scheduler<u32, Still> = Scheduler::new(settings(0, 0));
    assert!(s.on_encoded(frame(0, true)).is_some());
    assert!(s.on_encoded(frame(0, false)).is_none());
    assert!(s.on_encoded(frame(10, true)).is_none());
    assert!(s.on_encoded(frame(20, false)).is_none());
    assert_eq!(s.gops.len(), 2);
    assert!(s.gops[0].finalized);
    assert!(!s.gops[1].finalized);
    assert!(s.gops[0].pending[0].discont);
    assert_eq!(s.gops[0].max_pts, 10);
    assert_eq!(s.enqueued, 3);
}

fn run(alpha: u32, beta: u32) -> Scheduler<u32, Still> {
    let mut s: Scheduler<u32, Still> = Scheduler::new(settings(alpha, beta));
    for k in 0..8u64 {
        s.on_encoded(frame(k * 33 * MS, k != 0));
    }
    let det = vec![b(0., 0., 2., 2.)];
    s.on_mask(det.clone(), 0, &Diagonal).ok().unwrap();
    // matched once, then dies of age with maxage 0
    let out = s.on_mask(det.clone(), 500 * MS, &Diagonal).ok().unwrap();
    assert!(out.lists.is_empty());
    s
}

#[test]
fn dead_track_gets_one_inference() {
    let s = run(0, 0);
    assert_eq!(s.counts.decoded_inference, 1);
    assert_eq!(s.counts.decoded_dependency, 0);
    assert_eq!(s.gops[0].out.len(), 1);
    assert!(!s.gops[0].out[0].droppable);
    assert_eq!(s.gops[0].pending.len(), 7);
    assert_eq!(total(&s) + s.gops[0].pending.len() as u64, s.enqueued);
}

#[test]
fn no_extra_decode_without_alpha_or_beta() {
    let a = run(0, 3);
    let b = run(3, 0);
    assert_eq!(a.counts.decoded_inference + a.counts.decoded_dependency, 1);
    assert_eq!(b.counts.decoded_inference + b.counts.decoded_dependency, 1);
}

#[test]
fn extra_decode_spreads_inferences() {
    let s = run(4, 3);
    // one required inference, then 4 more frames: 2 inferences, 2 dependencies
    assert_eq!(s.counts.decoded_inference, 3);
    assert_eq!(s.counts.decoded_dependency, 2);
    let flags: Vec<bool> = s.gops[0].out.iter().map(|f| f.droppable).collect();
    assert_eq!(flags, vec![false, true, false, true, false]);
}

#[test]
fn end_of_stream_accounts_for_every_frame() {
    let mut s = run(0, 0);
    assert!(s.on_eos_enc().is_none());
    let out = s.on_eos_mask().unwrap();
    assert_eq!(out.lists.len(), 1);
    assert_eq!(out.lists[0].len(), 1);
    assert!(s.gops.is_empty());
    assert_eq!(total(&s), s.enqueued);
    assert_eq!(s.counts.dropped, 7);
}

#[test]
fn old_gops_are_released() {
    let mut s: Scheduler<u32, Still> = Scheduler::new(Settings { infer_i: true, ..settings(0, 0) });
    s.on_encoded(frame(0, false));
    s.on_encoded(frame(33 * MS, true));
    s.on_encoded(frame(9_000 * MS, false));
    let out = s.on_mask(vec![], 20_000 * MS, &Diagonal).ok().unwrap();
    assert_eq!(out.lists.len(), 1);
    assert_eq!(out.lists[0][0].pts, 0);
    assert_eq!(s.counts.decoded_inference, 1);
    assert_eq!(s.counts.dropped, 1);
    assert_eq!(s.gops.len(), 1);
}
