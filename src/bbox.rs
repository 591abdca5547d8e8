use vstd::prelude::*;

verus! {

/// An axis-aligned box in pixel coordinates.
///
/// The geometry (`left`, `top`, `width`, `height`, `area`) is held as the
/// IEEE-754 binary32 bit pattern of each coordinate, so that records pass
/// through this library bit for bit; geometric arithmetic on them is done
/// by the caller in floating point.
#[derive(Clone, Copy, Debug, PartialEq, Eq, Structural)]
pub struct Bbox {
    pub left: u32,
    pub top: u32,
    pub width: u32,
    pub height: u32,
    pub area: u32,
    pub track_id: Option<u64>,
    pub timestamp: Option<u64>,
    pub class_id: Option<u32>,
    pub confidence: Option<u32>,
}

impl Bbox {
    /// A box with the given geometry and no track, time, class or confidence.
    pub fn new(left: u32, top: u32, width: u32, height: u32, area: u32) -> (r: Bbox)
        ensures
            r.left == left,
            r.top == top,
            r.width == width,
            r.height == height,
            r.area == area,
            r.track_id is None,
            r.timestamp is None,
            r.class_id is None,
            r.confidence is None,
    {
        Bbox {
            left,
            top,
            width,
            height,
            area,
            track_id: None,
            timestamp: None,
            class_id: None,
            confidence: None,
        }
    }
}

/// The boxes of one track, sent by a tracker shard: `range_start` names the
/// shard, `oldest` is the earliest start among the shard's live tracks.
#[derive(Clone, Debug, PartialEq, Eq)]
pub struct Frame {
    pub range_start: u64,
    pub oldest: u64,
    pub bboxes: Vec<Bbox>,
}

impl Frame {
    /// Every box has a track id that stays within `u64` when `range_start`
    /// is added.
    pub open spec fn ids_offsettable(&self) -> bool {
        forall|i: int|
            0 <= i < self.bboxes@.len() ==> (#[trigger] self.bboxes@[i]).track_id is Some
                && self.bboxes@[i].track_id->0 + self.range_start <= u64::MAX
    }

    /// Makes the track ids unique across shards by adding `range_start` to
    /// each; refuses, changing nothing, when a box has no track id or the
    /// sum leaves `u64`.
    pub fn offset_track_ids(&mut self) -> (ok: bool)
        ensures
            ok == old(self).ids_offsettable(),
            !ok ==> *final(self) == *old(self),
            ok ==> final(self).range_start == old(self).range_start && final(self).oldest == old(
                self,
            ).oldest && final(self).bboxes@.len() == old(self).bboxes@.len() && forall|i: int|
                0 <= i < final(self).bboxes@.len() ==> #[trigger] final(self).bboxes@[i] == (Bbox {
                    track_id: Some((old(self).bboxes@[i].track_id->0 + old(self).range_start) as u64),
                    ..old(self).bboxes@[i]
                }),
    {
        let mut i: usize = 0;
        while i < self.bboxes.len()
            invariant
                i <= self.bboxes@.len(),
                forall|k: int|
                    0 <= k < i ==> (#[trigger] self.bboxes@[k]).track_id is Some
                        && self.bboxes@[k].track_id->0 + self.range_start <= u64::MAX,
            decreases self.bboxes@.len() - i,
        {
            match self.bboxes[i].track_id {
                Some(id) => {
                    if id > u64::MAX - self.range_start {
                        return false;
                    }
                },
                None => {
                    return false;
                },
            }
            i += 1;
        }
        let mut j: usize = 0;
        while j < self.bboxes.len()
            invariant
                j <= self.bboxes@.len(),
                self.bboxes@.len() == old(self).bboxes@.len(),
                self.range_start == old(self).range_start,
                self.oldest == old(self).oldest,
                old(self).ids_offsettable(),
                forall|k: int|
                    0 <= k < j ==> #[trigger] self.bboxes@[k] == (Bbox {
                        track_id: Some((old(self).bboxes@[k].track_id->0 + old(self).range_start) as u64),
                        ..old(self).bboxes@[k]
                    }),
                forall|k: int| j <= k < self.bboxes@.len() ==> #[trigger] self.bboxes@[k] == old(self).bboxes@[k],
            decreases self.bboxes@.len() - j,
        {
            let mut b = self.bboxes[j];
            b.track_id = Some(b.track_id.unwrap() + self.range_start);
            self.bboxes.set(j, b);
            j += 1;
        }
        true
    }
}

} // verus!
