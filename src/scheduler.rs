//! The selective-decode scheduler: buffers encoded frames by group of
//! pictures (GoP) and, driven by the tracker, decides which frames are
//! decoded for inference, which only as dependencies, and which are
//! dropped.
use vstd::prelude::*;
use vstd::arithmetic::div_mod::{
    lemma_fundamental_div_mod, lemma_fundamental_div_mod_converse_div, lemma_mod_pos_bound,
};
use crate::bbox::Bbox;
use crate::client::{max_unseen_start, min_start, records_of, Tracker};
use crate::sort::{done_part, lemma_marked_seen_none, lemma_marked_seen_trans, marked_seen, sort_step, step_with, Sort};
use crate::tracker::KalmanBoxTracker;
use crate::sort::Matcher;
use crate::tracker::MotionFilter;

verus! {

/// Frames the tracker may need past `maxage`, as a safety margin.
pub const SAFETY_BUFFER: u64 = 10;

/// One frame period at 30 frames per second, in nanoseconds.
pub const FRAME_NS: u64 = 33_333_333;

/// How far behind the newest mask frame a GoP may end and still be kept:
/// 250 frame periods.
pub const GOP_NS: u64 = 8_333_333_250;

/// An encoded frame; `buf` is its data, which the scheduler only carries.
pub struct EncFrame<B> {
    pub pts: u64,
    /// A frame that depends on earlier ones (not an IDR frame).
    pub delta: bool,
    /// Decoded for the frames that depend on it, not for inference.
    pub droppable: bool,
    /// Starts a new GoP.
    pub discont: bool,
    pub buf: B,
}

/// A group of pictures: the frames still waiting, and those already chosen
/// for decoding.
pub struct Gop<B> {
    pub min_pts: u64,
    pub max_pts: u64,
    pub pending: Vec<EncFrame<B>>,
    pub out: Vec<EncFrame<B>>,
    /// A later IDR frame has arrived: the GoP takes no more frames.
    pub finalized: bool,
}

/// What has become of the frames so far.
pub struct Counts {
    pub decoded_dependency: u64,
    pub decoded_inference: u64,
    pub dropped: u64,
}

/// The scheduler's parameters.
pub struct Settings {
    pub sort_maxage: u32,
    pub sort_minhits: u32,
    /// Extra frames that may be decoded per GoP beyond the minimum.
    pub alpha: u32,
    /// Inferences wanted per dead track.
    pub beta: u32,
    /// Decode the IDR frame of every GoP that is let go.
    pub infer_i: bool,
}

impl Default for Settings {
    /// Trackers live 30 frames unmatched and activate after 30 matches in a
    /// row; no over-decoding; IDR frames of released GoPs are not decoded.
    fn default() -> (r: Self)
        ensures
            r.sort_maxage == 30,
            r.sort_minhits == 30,
            r.alpha == 0,
            r.beta == 0,
            !r.infer_i,
    {
        Settings { sort_maxage: 30, sort_minhits: 30, alpha: 0, beta: 0, infer_i: false }
    }
}

/// The number of frames still pending over `gops`.
pub open spec fn pending_total<B>(gops: Seq<Gop<B>>) -> nat
    decreases gops.len(),
{
    if gops.len() == 0 {
        0
    } else {
        pending_total(gops.drop_last()) + gops.last().pending@.len()
    }
}

proof fn lemma_pending_total_update<B>(gops: Seq<Gop<B>>, g: int, x: Gop<B>)
    requires
        0 <= g < gops.len(),
    ensures
        pending_total(gops.update(g, x)) + gops[g].pending@.len() == pending_total(gops)
            + x.pending@.len(),
    decreases gops.len(),
{
    let u = gops.update(g, x);
    if g == gops.len() - 1 {
        assert(u.drop_last() =~= gops.drop_last());
    } else {
        lemma_pending_total_update(gops.drop_last(), g, x);
        assert(u.drop_last() =~= gops.drop_last().update(g, x));
    }
}

proof fn lemma_pending_total_push<B>(gops: Seq<Gop<B>>, x: Gop<B>)
    ensures
        pending_total(gops.push(x)) == pending_total(gops) + x.pending@.len(),
{
    assert(gops.push(x).drop_last() =~= gops);
}

proof fn lemma_pending_total_remove_first<B>(gops: Seq<Gop<B>>)
    requires
        gops.len() > 0,
    ensures
        pending_total(gops) == gops[0].pending@.len() + pending_total(gops.drop_first()),
    decreases gops.len(),
{
    if gops.len() == 1 {
        assert(gops.drop_first() =~= Seq::<Gop<B>>::empty());
        assert(gops.drop_last() =~= Seq::<Gop<B>>::empty());
    } else {
        lemma_pending_total_remove_first(gops.drop_last());
        assert(gops.drop_last().drop_first() =~= gops.drop_first().drop_last());
    }
}

/// Closed GoPs ending at or before this time are let go, for a mask frame
/// at `pts`.
pub open spec fn droppable_before(pts: u64) -> u64 {
    if pts >= GOP_NS {
        (pts - GOP_NS) as u64
    } else {
        0
    }
}

/// GoP `g` is let go on a mask frame at `pts`.
pub open spec fn released<B>(g: Gop<B>, pts: u64) -> bool {
    g.finalized && g.max_pts <= droppable_before(pts)
}

/// The GoPs of `s` that stay on a mask frame at `pts`, in order.
pub open spec fn gops_kept<B>(s: Seq<Gop<B>>, pts: u64) -> Seq<Gop<B>>
    decreases s.len(),
{
    if s.len() == 0 {
        Seq::empty()
    } else if released(s.last(), pts) {
        gops_kept(s.drop_last(), pts)
    } else {
        gops_kept(s.drop_last(), pts).push(s.last())
    }
}

/// The decode list that released GoP `g` sends: its list, with its first
/// pending frame added for inference when `infer_i` is set and that frame
/// is an IDR frame.
pub open spec fn release_list<B>(g: Gop<B>, infer_i: bool) -> Seq<EncFrame<B>> {
    if infer_i && g.pending@.len() > 0 && !g.pending@[0].delta {
        g.out@.push(g.pending@[0])
    } else {
        g.out@
    }
}

/// The IDR frame of released GoP `g` is decoded for inference.
pub open spec fn idr_taken<B>(g: Gop<B>, infer_i: bool) -> bool {
    infer_i && g.pending@.len() > 0 && !g.pending@[0].delta
}

/// Over the GoPs of `s` released at `pts`: the IDR frames decoded for
/// inference, and the pending frames dropped.
pub open spec fn release_counts<B>(s: Seq<Gop<B>>, pts: u64, infer_i: bool) -> (int, int)
    decreases s.len(),
{
    if s.len() == 0 {
        (0, 0)
    } else {
        let p = release_counts(s.drop_last(), pts, infer_i);
        let g = s.last();
        if released(g, pts) {
            let taken: int = if idr_taken(g, infer_i) {
                1
            } else {
                0
            };
            (p.0 + taken, p.1 + g.pending@.len() - taken)
        } else {
            p
        }
    }
}

/// The non-empty decode lists of the GoPs of `s` released at `pts`, in
/// order.
pub open spec fn release_lists<B>(s: Seq<Gop<B>>, pts: u64, infer_i: bool) -> Seq<Seq<EncFrame<B>>>
    decreases s.len(),
{
    if s.len() == 0 {
        Seq::empty()
    } else {
        let p = release_lists(s.drop_last(), pts, infer_i);
        if released(s.last(), pts) && release_list(s.last(), infer_i).len() > 0 {
            p.push(release_list(s.last(), infer_i))
        } else {
            p
        }
    }
}

/// `a` and `b` span the same times and are equally closed.
pub open spec fn same_envelope<B>(a: Gop<B>, b: Gop<B>) -> bool {
    a.min_pts == b.min_pts && a.max_pts == b.max_pts && a.finalized == b.finalized
}

/// `t` is the time of the frame that the walk for an inference at `lo`
/// decodes for inference in one of the GoPs `o` overlapping `[lo, hi]`: the
/// first of its pending frames at or after `lo`.
pub open spec fn promoted_time<B>(o: Seq<Gop<B>>, lo: u64, hi: u64, t: u64) -> bool {
    exists|k: int, j: int|
        0 <= k < o.len() && overlaps(o[k], lo, hi) && 0 <= j < o[k].pending@.len()
            && (#[trigger] o[k].pending@[j]).pts == t && lo <= t && forall|i: int|
            0 <= i < j ==> (#[trigger] o[k].pending@[i]).pts < lo
}

/// Every tracker of `n` is that of `o` with time `t` marked as seen.
pub open spec fn all_marked<K>(o: Tracker<K>, n: Tracker<K>, t: u64) -> bool {
    &&& n.sort.trackers@.len() == o.sort.trackers@.len()
    &&& forall|i: int|
        0 <= i < n.sort.trackers@.len() ==> (#[trigger] n.sort.trackers@[i]).seen_ts@
            == o.sort.trackers@[i].seen_ts@.push(t)
}

/// The frames of `s`, each flagged droppable (decoded as a dependency).
pub open spec fn as_deps<B>(s: Seq<EncFrame<B>>) -> Seq<EncFrame<B>> {
    Seq::new(s.len(), |i: int| EncFrame { droppable: true, ..s[i] })
}

/// Among `d` frames moved with `i` inferences, the one at position `q` is
/// an inference: the first `d % i` are dependencies, then each run of
/// `d / i` frames ends with an inference.
pub open spec fn inference_at(q: int, d: int, i: int) -> bool {
    q >= d % i && (q - d % i) % (d / i) == d / i - 1
}

/// The first `d` frames of `p`, flagged as `i` inferences spread evenly.
pub open spec fn spread_frames<B>(p: Seq<EncFrame<B>>, d: int, i: int) -> Seq<EncFrame<B>> {
    Seq::new(d as nat, |q: int| EncFrame { droppable: !inference_at(q, d, i), ..p[q] })
}

/// The times of the inference frames among the first `d` frames of `p`
/// when `i` of them are spread evenly.
pub open spec fn spread_times<B>(p: Seq<EncFrame<B>>, d: int, i: int) -> Seq<u64> {
    Seq::new(i as nat, |j: int| p[(d % i) + j * (d / i) + (d / i) - 1].pts)
}

/// The times marked by over-decoding the GoPs `o` from index `k` up, taken
/// from the newest: `inf[k]` inferences in GoP `k`.
pub open spec fn extra_marks<B>(o: Seq<Gop<B>>, inf: Seq<int>, alpha: int, k: int) -> Seq<u64>
    decreases o.len() - k,
{
    if 0 <= k < o.len() {
        let d = if o[k].pending@.len() < alpha {
            o[k].pending@.len() as int
        } else {
            alpha
        };
        extra_marks(o, inf, alpha, k + 1) + if inf[k] > 0 {
            spread_times(o[k].pending@, d, inf[k])
        } else {
            Seq::empty()
        }
    } else {
        Seq::empty()
    }
}

proof fn lemma_extra_marks_zero<B>(o: Seq<Gop<B>>, inf: Seq<int>, alpha: int, k: int)
    requires
        inf.len() == o.len(),
        forall|j: int| 0 <= j < inf.len() ==> inf[j] == 0,
    ensures
        extra_marks(o, inf, alpha, k) == Seq::<u64>::empty(),
    decreases o.len() - k,
{
    if 0 <= k < o.len() {
        lemma_extra_marks_zero(o, inf, alpha, k + 1);
        assert(Seq::<u64>::empty() + Seq::<u64>::empty() =~= Seq::<u64>::empty());
    }
}

proof fn lemma_extra_marks_update<B>(o: Seq<Gop<B>>, inf: Seq<int>, alpha: int, g: int, v: int, k: int)
    requires
        0 <= g < o.len(),
        inf.len() == o.len(),
        g < k,
    ensures
        extra_marks(o, inf.update(g, v), alpha, k) == extra_marks(o, inf, alpha, k),
    decreases o.len() - k,
{
    if 0 <= k < o.len() {
        lemma_extra_marks_update(o, inf, alpha, g, v, k + 1);
    }
}

/// The sum of `s[k..]`.
pub open spec fn suffix_sum(s: Seq<int>, k: int) -> int
    decreases s.len() - k,
{
    if 0 <= k < s.len() {
        s[k] + suffix_sum(s, k + 1)
    } else {
        0
    }
}

proof fn lemma_suffix_sum_update(s: Seq<int>, g: int, v: int, k: int)
    requires
        0 <= g < s.len(),
        s[g] == 0,
        g <= k,
    ensures
        k > g ==> suffix_sum(s.update(g, v), k) == suffix_sum(s, k),
        k == g ==> suffix_sum(s.update(g, v), k) == v + suffix_sum(s, k + 1),
    decreases s.len() - k,
{
    if k < s.len() {
        lemma_suffix_sum_update(s, g, v, k + 1);
    }
}

proof fn lemma_suffix_sum_zero(s: Seq<int>, k: int)
    requires
        forall|j: int| 0 <= j < s.len() ==> s[j] == 0,
    ensures
        suffix_sum(s, k) == 0,
    decreases s.len() - k,
{
    if 0 <= k < s.len() {
        lemma_suffix_sum_zero(s, k + 1);
    }
}

/// GoP `n` is GoP `o` after over-decoding with `t` inferences already made:
/// if `o` overlaps `[lo, hi]` and already decodes a frame, its first
/// `d = min(pending, alpha)` pending frames are decoded, `i = min(d, beta -
/// t)` of them for inference, spread evenly, and `ik == i`; otherwise `o`
/// is unchanged and `ik == 0`.
pub open spec fn extra_step<B>(
    o: Gop<B>,
    n: Gop<B>,
    t: int,
    alpha: int,
    beta: int,
    lo: u64,
    hi: u64,
    ik: int,
) -> bool {
    let d = if o.pending@.len() < alpha {
        o.pending@.len() as int
    } else {
        alpha
    };
    let i = if d < beta - t {
        d
    } else {
        beta - t
    };
    if overlaps(o, lo, hi) && o.out@.len() > 0 && d > 0 && i > 0 {
        &&& ik == i
        &&& same_envelope(n, o)
        &&& n.pending@ == o.pending@.skip(d)
        &&& n.out@ == o.out@ + spread_frames(o.pending@, d, i)
    } else {
        ik == 0 && n == o
    }
}

/// GoP `g` already decodes a frame after `lo`, or holds a pending frame at
/// or after `lo`: a walk for an inference at `lo` stops there.
pub open spec fn settles<B>(g: Gop<B>, lo: u64) -> bool {
    ||| exists|i: int| 0 <= i < g.out@.len() && lo < (#[trigger] g.out@[i]).pts
    ||| exists|i: int| 0 <= i < g.pending@.len() && lo <= (#[trigger] g.pending@[i]).pts
}

/// `n` is `o` with all its pending frames, all before `lo`, decoded as
/// dependencies.
pub open spec fn drained<B>(o: Gop<B>, n: Gop<B>) -> bool {
    &&& same_envelope(n, o)
    &&& n.pending@.len() == 0
    &&& n.out@ == o.out@ + as_deps(o.pending@)
}

/// `n` is `o` after the walk for an inference at `lo` stopped in it: `o`
/// is unchanged if it already decodes a frame after `lo`; otherwise its
/// pending frames before the first one at or after `lo` are decoded as
/// dependencies and that one for inference.
pub open spec fn settled<B>(o: Gop<B>, n: Gop<B>, lo: u64) -> bool {
    if exists|i: int| 0 <= i < o.out@.len() && lo < (#[trigger] o.out@[i]).pts {
        n == o
    } else {
        exists|j: int|
            0 <= j < o.pending@.len() && lo <= (#[trigger] o.pending@[j]).pts && (forall|i: int|
                0 <= i < j ==> (#[trigger] o.pending@[i]).pts < lo) && same_envelope(n, o)
                && n.pending@ == o.pending@.skip(j + 1) && n.out@ == (o.out@ + as_deps(
                o.pending@.take(j),
            )).push(EncFrame { droppable: false, ..o.pending@[j] })
    }
}

/// GoP `n` is GoP `o` after the walk for an inference at `lo` passed it:
/// unchanged if `o` does not overlap `[lo, hi]`, else drained.
pub open spec fn passed<B>(o: Gop<B>, n: Gop<B>, lo: u64, hi: u64) -> bool {
    if overlaps(o, lo, hi) {
        !settles(o, lo) && drained(o, n)
    } else {
        n == o
    }
}

/// The outcome of the walk for an inference at `lo` over the GoPs `o`
/// overlapping `[lo, hi]`, from the newest: `ti == 1` exactly when some
/// overlapping GoP settles it; the GoPs walked past are drained, the one
/// where the walk stopped is settled, the older ones are unchanged.
pub open spec fn walk_result<B>(o: Seq<Gop<B>>, n: Seq<Gop<B>>, lo: u64, hi: u64, ti: u64) -> bool {
    &&& n.len() == o.len()
    &&& ti <= 1
    &&& (ti == 1) == exists|k: int| 0 <= k < o.len() && overlaps(#[trigger] o[k], lo, hi) && settles(o[k], lo)
    &&& ti == 0 ==> forall|k: int| 0 <= k < o.len() ==> passed(o[k], #[trigger] n[k], lo, hi)
    &&& ti == 1 ==> exists|sa: int|
        {
            &&& 0 <= sa < o.len()
            &&& overlaps(o[sa], lo, hi)
            &&& settles(o[sa], lo)
            &&& settled(o[sa], #[trigger] n[sa], lo)
            &&& forall|k: int| 0 <= k < sa ==> #[trigger] n[k] == o[k]
            &&& forall|k: int| sa < k < o.len() ==> passed(o[k], #[trigger] n[k], lo, hi)
        }
}

/// The outcome of over-decoding the GoPs `o` into `n`, starting from `ti`
/// inferences and ending with `r`.
pub open spec fn extra_result<B>(
    o: Seq<Gop<B>>,
    n: Seq<Gop<B>>,
    ti: u64,
    r: u64,
    alpha: int,
    beta: int,
    lo: u64,
    hi: u64,
) -> bool {
    &&& n.len() == o.len()
    &&& exists|inf: Seq<int>|
        {
            &&& inf.len() == o.len()
            &&& r == ti + #[trigger] suffix_sum(inf, 0)
            &&& forall|k: int|
                0 <= k < inf.len() ==> extra_step(
                    o[k],
                    #[trigger] n[k],
                    ti + suffix_sum(inf, k + 1),
                    alpha,
                    beta,
                    lo,
                    hi,
                    inf[k],
                )
        }
}

/// The latest time at which a dead track may still be looked for, on a mask
/// frame at `pts`: `maxage` plus a safety margin of frames before it.
pub open spec fn window_end(pts: u64, maxage: u32) -> u64 {
    let w = FRAME_NS * (maxage + SAFETY_BUFFER);
    if pts >= w {
        (pts - w) as u64
    } else {
        0
    }
}

/// The GoPs `o` become `g` on a mask frame at `pts` on which the tracks
/// `dead` died: unchanged if none died; else the walk for an inference at
/// the latest unseen start among them, then over-decoding.
pub open spec fn decisions<B, K>(
    o: Seq<Gop<B>>,
    g: Seq<Gop<B>>,
    dead: Seq<KalmanBoxTracker<K>>,
    pts: u64,
    st: Settings,
) -> bool {
    let lo = max_unseen_start(dead);
    let hi = window_end(pts, st.sort_maxage);
    if dead.len() == 0 {
        g == o
    } else {
        exists|mid: Seq<Gop<B>>, t1: u64, t2: u64|
            #![trigger walk_result(o, mid, lo, hi, t1), extra_result(mid, g, t1, t2, st.alpha as int, st.beta as int, lo, hi)]
            walk_result(o, mid, lo, hi, t1) && extra_result(
                mid,
                g,
                t1,
                t2,
                st.alpha as int,
                st.beta as int,
                lo,
                hi,
            )
    }
}

/// A mask frame at `pts` with boxes `bboxes` took the tracker `o_sort`,
/// GoPs `o_gops` and settings `st` to GoPs `n_gops`
/// and engine `n_sort` with output `out`: the tracker went to `s1` (then
/// only marks of frames seen were added, giving `n_sort`), the tracks
/// `dead` died,
/// their records (of shard `n_range_start`) are sent, the decode decisions
/// took the GoPs to `g`, and the GoPs of `g` that are old enough were let
/// go with their decode lists, their undecoded frames counted as dropped
/// (from `o_dropped` to `n_dropped`).
pub open spec fn mask_outcome<B, K>(
    o_sort: Sort<K>,
    o_gops: Seq<Gop<B>>,
    st: Settings,
    n_gops: Seq<Gop<B>>,
    n_range_start: u64,
    n_sort: Sort<K>,
    n_dropped: u64,
    o_dropped: u64,
    out: MaskOutput<B>,
    s1: Sort<K>,
    dead: Seq<KalmanBoxTracker<K>>,
    g: Seq<Gop<B>>,
    bboxes: Seq<Bbox>,
    pts: u64,
) -> bool {
    let recs = records_of(dead, n_range_start, min_start(s1.trackers@));
    let lists = release_lists(g, pts, st.infer_i);
    &&& sort_step(o_sort, s1, bboxes, pts, dead)
    &&& exists|ts: Seq<u64>| #[trigger] marked_seen(s1, n_sort, ts)
    &&& out.records@.len() == recs.len()
    &&& forall|k: int| 0 <= k < recs.len() ==> (#[trigger] out.records@[k])@ == recs[k]
    &&& decisions(o_gops, g, dead, pts, st)
    &&& n_gops == gops_kept(g, pts)
    &&& n_dropped == o_dropped + release_counts(g, pts, st.infer_i).1
    &&& out.lists@.len() == lists.len()
    &&& forall|k: int| 0 <= k < lists.len() ==> (#[trigger] out.lists@[k])@ == lists[k]
}

/// GoP `g` overlaps the time span `[lo, hi]`.
pub open spec fn overlaps<B>(g: Gop<B>, lo: u64, hi: u64) -> bool {
    lo <= g.max_pts && g.min_pts <= hi
}

impl<B> Gop<B> {
    /// Moves the first pending frame to the decode list, for inference or,
    /// flagged droppable, as a dependency; returns its time.
    fn promote_front(&mut self, inference: bool) -> (pts: u64)
        requires
            old(self).pending@.len() > 0,
        ensures
            pts == old(self).pending@[0].pts,
            final(self).pending@ == old(self).pending@.drop_first(),
            final(self).out@.len() == old(self).out@.len() + 1,
            final(self).out@.drop_last() == old(self).out@,
            final(self).out@.last().pts == pts,
            final(self).out@.last().droppable == !inference,
            final(self).out@ == old(self).out@.push(
                EncFrame { droppable: !inference, ..old(self).pending@[0] },
            ),
            final(self).min_pts == old(self).min_pts,
            final(self).max_pts == old(self).max_pts,
            final(self).finalized == old(self).finalized,
    {
        let mut f = self.pending.remove(0);
        f.droppable = !inference;
        let pts = f.pts;
        let ghost o = self.out@;
        self.out.push(f);
        proof {
            assert(self.out@.drop_last() =~= o);
            assert(old(self).pending@.remove(0) =~= old(self).pending@.drop_first());
        }
        pts
    }

    /// Whether a frame chosen for decoding comes after time `t`.
    fn has_out_after(&self, t: u64) -> (r: bool)
        ensures
            r == exists|i: int| 0 <= i < self.out@.len() && t < (#[trigger] self.out@[i]).pts,
    {
        let mut i: usize = 0;
        while i < self.out.len()
            invariant
                i <= self.out@.len(),
                forall|k: int| 0 <= k < i ==> t >= (#[trigger] self.out@[k]).pts,
            decreases self.out@.len() - i,
        {
            if t < self.out[i].pts {
                return true;
            }
            i += 1;
        }
        false
    }

    /// Moves pending frames to the decode list as dependencies until one at
    /// or after time `lo` comes, which is moved for inference; returns the
    /// number of dependencies and that frame's time, if one came.
    fn decode_until(&mut self, lo: u64) -> (r: (u64, Option<u64>))
        ensures
            final(self).pending@.len() + r.0 + (if r.1 is Some {
                1int
            } else {
                0int
            }) == old(self).pending@.len(),
            r.1 is None ==> final(self).pending@.len() == 0,
            r.1 matches Some(t) ==> lo <= t,
            final(self).min_pts == old(self).min_pts,
            final(self).max_pts == old(self).max_pts,
            final(self).finalized == old(self).finalized,
            final(self).out@.len() >= old(self).out@.len(),
            final(self).out@.subrange(0, old(self).out@.len() as int) == old(self).out@,
            r.1 is None ==> forall|k: int|
                old(self).out@.len() <= k < final(self).out@.len() ==> (#[trigger] final(self).out@[k]).pts < lo,
            r.1 is None ==> {
                &&& forall|i: int| 0 <= i < old(self).pending@.len() ==> (#[trigger] old(self).pending@[i]).pts < lo
                &&& final(self).out@ == old(self).out@ + as_deps(old(self).pending@)
            },
            r.1 matches Some(t) ==> {
                let j = r.0 as int;
                &&& 0 <= j < old(self).pending@.len()
                &&& t == old(self).pending@[j].pts
                &&& forall|i: int| 0 <= i < j ==> (#[trigger] old(self).pending@[i]).pts < lo
                &&& final(self).pending@ == old(self).pending@.skip(j + 1)
                &&& final(self).out@ == (old(self).out@ + as_deps(old(self).pending@.take(j))).push(
                    EncFrame { droppable: false, ..old(self).pending@[j] },
                )
            },
    {
        let mut dep: u64 = 0;
        proof {
            assert(old(self).pending@.skip(0) =~= old(self).pending@);
            assert(old(self).out@ + as_deps(old(self).pending@.take(0)) =~= old(self).out@);
        }
        assert(self.pending@.len() == self.pending.len());
        while self.pending.len() > 0
            invariant
                old(self).pending@.len() <= usize::MAX,
                self.pending@.len() + dep == old(self).pending@.len(),
                self.min_pts == old(self).min_pts,
                self.max_pts == old(self).max_pts,
                self.finalized == old(self).finalized,
                self.out@.len() >= old(self).out@.len(),
                self.out@.subrange(0, old(self).out@.len() as int) == old(self).out@,
                forall|k: int|
                    old(self).out@.len() <= k < self.out@.len() ==> (#[trigger] self.out@[k]).pts < lo,
                self.pending@ == old(self).pending@.skip(dep as int),
                self.out@ == old(self).out@ + as_deps(old(self).pending@.take(dep as int)),
                forall|i: int| 0 <= i < dep ==> (#[trigger] old(self).pending@[i]).pts < lo,
            decreases self.pending@.len(),
        {
            let ghost o0 = self.out@;
            let ghost p0 = self.pending@;
            if lo <= self.pending[0].pts {
                let t = self.promote_front(true);
                proof {
                    assert(p0[0] == old(self).pending@[dep as int]);
                    assert(self.pending@ =~= old(self).pending@.skip(dep + 1));
                    assert(self.out@.subrange(0, old(self).out@.len() as int) =~= o0.subrange(
                        0,
                        old(self).out@.len() as int,
                    ));
                }
                return (dep, Some(t));
            }
            self.promote_front(false);
            proof {
                let op = old(self).pending@;
                assert(p0[0] == op[dep as int]);
                assert(op.take(dep + 1) =~= op.take(dep as int).push(op[dep as int]));
                assert(self.out@ =~= old(self).out@ + as_deps(op.take(dep + 1)));
                assert(self.pending@ =~= op.skip(dep + 1));
                assert(self.out@.subrange(0, old(self).out@.len() as int) =~= o0.subrange(
                    0,
                    old(self).out@.len() as int,
                ));
                assert forall|k: int|
                    old(self).out@.len() <= k < self.out@.len() implies (#[trigger] self.out@[k]).pts
                    < lo by {
                    if k < o0.len() {
                        assert(self.out@[k] == self.out@.drop_last()[k]);
                    }
                }
            }
            dep = dep + 1;
        }
        proof {
            assert(old(self).pending@.take(dep as int) =~= old(self).pending@);
        }
        (dep, None)
    }

    /// Moves `n_dec` pending frames to the decode list, `n_inf` of them for
    /// inference spread evenly and the rest as dependencies, the surplus of
    /// dependencies first; returns the times of the inference frames.
    fn decode_spread(&mut self, n_dec: u64, n_inf: u64) -> (r: Vec<u64>)
        requires
            1 <= n_inf <= n_dec <= old(self).pending@.len(),
        ensures
            final(self).pending@.len() + n_dec == old(self).pending@.len(),
            final(self).pending@ == old(self).pending@.skip(n_dec as int),
            final(self).out@ == old(self).out@ + spread_frames(
                old(self).pending@,
                n_dec as int,
                n_inf as int,
            ),
            r@.len() == n_inf,
            forall|j: int|
                0 <= j < n_inf ==> #[trigger] r@[j] == old(self).pending@[(n_dec % n_inf) + j * (n_dec
                    / n_inf) + (n_dec / n_inf) - 1].pts,
            final(self).min_pts == old(self).min_pts,
            final(self).max_pts == old(self).max_pts,
            final(self).finalized == old(self).finalized,
            final(self).out@.len() == old(self).out@.len() + n_dec,
    {
        let step = n_dec / n_inf;
        let rem = n_dec % n_inf;
        proof {
            assert(n_dec == step * n_inf + rem) by (nonlinear_arith)
                requires
                    step == n_dec / n_inf,
                    rem == n_dec % n_inf,
                    n_inf >= 1,
            ;
            assert(step >= 1) by (nonlinear_arith)
                requires
                    step == n_dec / n_inf,
                    n_inf <= n_dec,
                    n_inf >= 1,
            ;
            assert(rem < n_inf) by (nonlinear_arith)
                requires
                    rem == n_dec % n_inf,
                    n_inf >= 1,
            ;
        }
        let ghost p0 = self.pending@;
        let ghost o0 = self.out@;
        let ghost sp = spread_frames(p0, n_dec as int, n_inf as int);
        let mut r: Vec<u64> = Vec::new();
        let mut moved: u64 = 0;
        proof {
            assert(p0.skip(0) =~= p0);
            assert(o0 + sp.take(0) =~= o0);
        }
        while moved < n_dec
            invariant
                moved <= n_dec,
                n_dec <= p0.len(),
                p0 == old(self).pending@,
                o0 == old(self).out@,
                sp == spread_frames(p0, n_dec as int, n_inf as int),
                step == n_dec / n_inf,
                rem == n_dec % n_inf,
                step >= 1,
                rem < n_inf,
                n_inf >= 1,
                n_dec == step * n_inf + rem,
                self.pending@ == p0.skip(moved as int),
                self.out@ == o0 + sp.take(moved as int),
                r@.len() == if moved <= rem {
                    0
                } else {
                    (moved - rem) / (step as int)
                },
                forall|j: int|
                    0 <= j < r@.len() ==> #[trigger] r@[j] == p0[rem + j * step + step - 1].pts,
                self.min_pts == old(self).min_pts,
                self.max_pts == old(self).max_pts,
                self.finalized == old(self).finalized,
            decreases n_dec - moved,
        {
            let inf = moved >= rem && (moved - rem) % step == step - 1;
            let ghost q = moved as int;
            let ghost r0 = r@;
            proof {
                assert(self.pending@[0] == p0[q]);
                assert(sp[q] == EncFrame { droppable: !inf, ..p0[q] });
            }
            let t = self.promote_front(inf);
            if inf {
                r.push(t);
            }
            proof {
                assert(sp.take(q + 1) =~= sp.take(q).push(sp[q]));
                assert(self.out@ =~= o0 + sp.take(q + 1));
                assert(self.pending@ =~= p0.skip(q + 1));
                let st = step as int;
                let rm = rem as int;
                if q >= rm {
                    let x = q - rm;
                    lemma_fundamental_div_mod(x, st);
                    lemma_mod_pos_bound(x, st);
                    let dq = x / st;
                    let dr = x % st;
                    if inf {
                        assert(dr == st - 1);
                        assert(x + 1 == (dq + 1) * st + 0) by (nonlinear_arith)
                            requires
                                x == st * dq + dr,
                                dr == st - 1,
                        ;
                        lemma_fundamental_div_mod_converse_div(x + 1, st, dq + 1, 0);
                        assert(r@.len() == dq + 1);
                        assert(q == rm + dq * st + st - 1) by (nonlinear_arith)
                            requires
                                x == st * dq + dr,
                                dr == st - 1,
                                x == q - rm,
                        ;
                        assert forall|j: int| 0 <= j < r@.len() implies #[trigger] r@[j] == p0[rem + j
                            * step + step - 1].pts by {
                            if j < r0.len() {
                                assert(r@[j] == r0[j]);
                            }
                        }
                    } else {
                        assert(x + 1 == dq * st + (dr + 1)) by (nonlinear_arith)
                            requires
                                x == st * dq + dr,
                        ;
                        lemma_fundamental_div_mod_converse_div(x + 1, st, dq, dr + 1);
                        if q > rm {
                            assert(r@.len() == dq);
                        } else {
                            assert(dq == 0);
                        }
                    }
                } else {
                    if q + 1 > rm {
                        assert(q + 1 == rm);
                        lemma_fundamental_div_mod_converse_div(0, st, 0, 0);
                    }
                }
            }
            moved = moved + 1;
        }
        proof {
            assert(sp.take(n_dec as int) =~= sp);
            lemma_fundamental_div_mod_converse_div((n_dec - rem) as int, step as int, n_inf as int, 0);
            assert((n_dec - rem) as int == n_inf * step + 0) by (nonlinear_arith)
                requires
                    n_dec == step * n_inf + rem,
            ;
        }
        r
    }
}

/// The scheduler's state for one stream.
pub struct Scheduler<B, K> {
    pub gops: Vec<Gop<B>>,
    pub tracker: Tracker<K>,
    pub settings: Settings,
    pub counts: Counts,
    /// Encoded frames taken into a GoP so far.
    pub enqueued: u64,
    /// End of stream has come on the encoded input.
    pub eos_enc: bool,
    /// End of stream has come on the mask input.
    pub eos_mask: bool,
}

/// What a mask frame yields.
pub struct MaskOutput<B> {
    /// Decode lists to send downstream, one per GoP let go.
    pub lists: Vec<Vec<EncFrame<B>>>,
    /// Track records to send to the aggregator.
    pub records: Vec<Vec<u8>>,
}

/// The tracker has counted as many frames or ids as a `u64` holds.
#[derive(Clone, Copy, Debug, PartialEq, Eq, Structural)]
pub enum SchedulerError {
    Exhausted,
}

/// Every frame taken in is decoded, dropped, or still pending.
pub open spec fn counts_agree<B>(c: Counts, gops: Seq<Gop<B>>, enqueued: u64) -> bool {
    c.decoded_dependency + c.decoded_inference + c.dropped + pending_total(gops) == enqueued
}

/// `out` is what end of stream sends on from `o`: every GoP's decode list,
/// in order, and the records of the tracks that the tracker finishes.
pub open spec fn flushed<B, K>(o: Scheduler<B, K>, n: Scheduler<B, K>, out: MaskOutput<B>) -> bool {
    &&& n.gops@.len() == 0
    &&& out.lists@.len() == o.gops@.len()
    &&& forall|k: int| 0 <= k < out.lists@.len() ==> (#[trigger] out.lists@[k])@ == o.gops@[k].out@
    &&& n.counts.dropped == o.counts.dropped + pending_total(o.gops@)
    &&& n.counts.decoded_dependency == o.counts.decoded_dependency
    &&& n.counts.decoded_inference == o.counts.decoded_inference
    &&& match o.tracker.range_start {
        None => out.records@.len() == 0,
        Some(rs) => {
            let recs = records_of(
                done_part(o.tracker.sort.trackers@, o.tracker.sort.min_hits),
                rs,
                min_start(o.tracker.sort.trackers@),
            );
            &&& out.records@.len() == recs.len()
            &&& forall|k: int| 0 <= k < recs.len() ==> (#[trigger] out.records@[k])@ == recs[k]
        },
    }
}

/// No counter went down.
pub open spec fn counts_grew(a: Counts, b: Counts) -> bool {
    &&& a.decoded_dependency <= b.decoded_dependency
    &&& a.decoded_inference <= b.decoded_inference
    &&& a.dropped <= b.dropped
}

impl<B, K: MotionFilter> Scheduler<B, K> {
    pub open spec fn wf(&self) -> bool {
        &&& counts_agree(self.counts, self.gops@, self.enqueued)
        &&& self.tracker.sort.wf()
    }

    /// A scheduler with no frames, whose tracker runs with `settings`.
    pub fn new(settings: Settings) -> (r: Self)
        ensures
            r.wf(),
            r.gops@.len() == 0,
            r.enqueued == 0,
            r.counts.decoded_dependency == 0,
            r.counts.decoded_inference == 0,
            r.counts.dropped == 0,
            r.settings == settings,
            r.tracker.sort.max_age == settings.sort_maxage,
            r.tracker.sort.min_hits == settings.sort_minhits,
            r.tracker.range_start is None,
            !r.eos_enc,
            !r.eos_mask,
    {
        let tracker = Tracker::new(45, 80, settings.sort_maxage as u64, settings.sort_minhits as u64);
        Scheduler {
            gops: Vec::new(),
            tracker,
            settings,
            counts: Counts { decoded_dependency: 0, decoded_inference: 0, dropped: 0 },
            enqueued: 0,
            eos_enc: false,
            eos_mask: false,
        }
    }

    /// Takes in an encoded frame. An IDR frame closes the last GoP and
    /// opens a new one, flagged as a discontinuity; any other frame joins
    /// the last GoP. A frame that no GoP can take (none is open yet, or the
    /// count of frames is full) is handed back.
    pub fn on_encoded(&mut self, frame: EncFrame<B>) -> (r: Option<EncFrame<B>>)
        requires
            old(self).wf(),
        ensures
            final(self).wf(),
            final(self).counts == old(self).counts,
            final(self).settings == old(self).settings,
            r is None <==> final(self).enqueued == old(self).enqueued + 1,
            r is Some ==> final(self).enqueued == old(self).enqueued,
            r is Some <==> (old(self).enqueued == u64::MAX || (frame.delta && old(self).gops@.len()
                == 0)),
            !frame.delta && r is None ==> final(self).gops@.len() == old(self).gops@.len() + 1
                && final(self).gops@.last().min_pts == frame.pts && final(self).gops@.last().max_pts
                == frame.pts && !final(self).gops@.last().finalized,
            frame.delta && r is None ==> final(self).gops@.len() == old(self).gops@.len(),
            r is Some ==> r == Some(frame) && final(self).gops == old(self).gops,
            r is None ==> forall|k: int|
                0 <= k < old(self).gops@.len() - 1 ==> #[trigger] final(self).gops@[k] == old(
                    self,
                ).gops@[k],
            !frame.delta && r is None ==> {
                let n = old(self).gops@.len();
                let g = final(self).gops@.last();
                &&& n > 0 ==> final(self).gops@[n - 1] == (Gop {
                    finalized: true,
                    ..old(self).gops@[n - 1]
                })
                &&& g.pending@ == seq![EncFrame { discont: true, ..frame }]
                &&& g.out@.len() == 0
            },
            frame.delta && r is None ==> {
                let o = old(self).gops@.last();
                let g = final(self).gops@.last();
                &&& g.pending@ == o.pending@.push(frame)
                &&& g.out == o.out
                &&& g.finalized == o.finalized
                &&& g.min_pts == if frame.pts < o.min_pts {
                    frame.pts
                } else {
                    o.min_pts
                }
                &&& g.max_pts == if frame.pts < o.min_pts || frame.pts <= o.max_pts {
                    o.max_pts
                } else {
                    frame.pts
                }
            },
    {
        if self.enqueued == u64::MAX {
            return Some(frame);
        }
        if !frame.delta {
            let n = self.gops.len();
            if n > 0 {
                let mut last = self.gops.remove(n - 1);
                let ghost g0 = self.gops@;
                last.finalized = true;
                self.gops.push(last);
                proof {
                    lemma_pending_total_push(g0, last);
                    assert(old(self).gops@ =~= g0.push(old(self).gops@[n - 1]));
                    lemma_pending_total_push(g0, old(self).gops@[n - 1]);
                }
            }
            let mut f = frame;
            f.discont = true;
            let pts = f.pts;
            let mut pending: Vec<EncFrame<B>> = Vec::new();
            pending.push(f);
            let gop = Gop { min_pts: pts, max_pts: pts, pending, out: Vec::new(), finalized: false };
            let ghost g1 = self.gops@;
            self.gops.push(gop);
            proof {
                lemma_pending_total_push(g1, gop);
            }
            self.enqueued = self.enqueued + 1;
            None
        } else {
            let n = self.gops.len();
            if n == 0 {
                return Some(frame);
            }
            let mut last = self.gops.remove(n - 1);
            let ghost g0 = self.gops@;
            let ghost l0 = last;
            if frame.pts < last.min_pts {
                last.min_pts = frame.pts;
            } else if frame.pts > last.max_pts {
                last.max_pts = frame.pts;
            }
            last.pending.push(frame);
            self.gops.push(last);
            proof {
                assert(old(self).gops@ =~= g0.push(l0));
                lemma_pending_total_push(g0, l0);
                lemma_pending_total_push(g0, last);
            }
            self.enqueued = self.enqueued + 1;
            None
        }
    }

    /// Guarantees an inference in `[lo, hi]`: walks the overlapping GoPs
    /// from the newest; a GoP that already decodes a frame after `lo`
    /// settles it, else the GoP's pending frames are decoded, as
    /// dependencies, up to the first frame at or after `lo`, which is
    /// decoded for inference and marked seen. Returns 1 once settled, else 0.
    pub fn require_inference(&mut self, lo: u64, hi: u64) -> (ti: u64)
        requires
            old(self).wf(),
        ensures
            final(self).wf(),
            ti <= 1,
            final(self).counts.decoded_inference <= old(self).counts.decoded_inference + ti,
            forall|k: int|
                0 <= k < final(self).gops@.len() ==> same_envelope(
                    #[trigger] final(self).gops@[k],
                    old(self).gops@[k],
                ),
            ti == 0 ==> forall|k: int|
                0 <= k < final(self).gops@.len() && overlaps(#[trigger] final(self).gops@[k], lo, hi)
                    ==> final(self).gops@[k].pending@.len() == 0 && forall|m: int|
                    0 <= m < final(self).gops@[k].out@.len() ==> final(self).gops@[k].out@[m].pts
                        <= lo,
            (ti == 1) == exists|k: int|
                0 <= k < old(self).gops@.len() && overlaps(#[trigger] old(self).gops@[k], lo, hi)
                    && settles(old(self).gops@[k], lo),
            ti == 0 ==> forall|k: int|
                0 <= k < old(self).gops@.len() ==> passed(
                    old(self).gops@[k],
                    #[trigger] final(self).gops@[k],
                    lo,
                    hi,
                ),
            ti == 1 ==> exists|sa: int|
                {
                    &&& 0 <= sa < old(self).gops@.len()
                    &&& overlaps(old(self).gops@[sa], lo, hi)
                    &&& settles(old(self).gops@[sa], lo)
                    &&& settled(old(self).gops@[sa], #[trigger] final(self).gops@[sa], lo)
                    &&& forall|k: int| 0 <= k < sa ==> #[trigger] final(self).gops@[k] == old(self).gops@[k]
                    &&& forall|k: int|
                        sa < k < old(self).gops@.len() ==> passed(
                            old(self).gops@[k],
                            #[trigger] final(self).gops@[k],
                            lo,
                            hi,
                        )
                },
            final(self).counts.decoded_inference == old(self).counts.decoded_inference ==> final(self).tracker
                == old(self).tracker,
            final(self).counts.decoded_inference != old(self).counts.decoded_inference ==> exists|
                t: u64,
            | lo <= t && #[trigger] all_marked(old(self).tracker, final(self).tracker, t),
            walk_result(old(self).gops@, final(self).gops@, lo, hi, ti),
            final(self).tracker.range_start == old(self).tracker.range_start,
            exists|ts: Seq<u64>|
                #[trigger] marked_seen(old(self).tracker.sort, final(self).tracker.sort, ts)
                    && ts.len() == final(self).counts.decoded_inference - old(
                    self,
                ).counts.decoded_inference && ts.len() <= 1 && (ts.len() == 1 ==> promoted_time(
                    old(self).gops@,
                    lo,
                    hi,
                    ts[0],
                )),
            final(self).counts.dropped == old(self).counts.dropped,
            counts_grew(old(self).counts, final(self).counts),
            final(self).enqueued == old(self).enqueued,
            final(self).settings == old(self).settings,
            final(self).gops@.len() == old(self).gops@.len(),
            final(self).tracker.range_start == old(self).tracker.range_start,
            final(self).tracker.sort.frame_count == old(self).tracker.sort.frame_count,
            final(self).tracker.sort.id_counter == old(self).tracker.sort.id_counter,
            final(self).eos_enc == old(self).eos_enc,
            final(self).eos_mask == old(self).eos_mask,
    {
        let mut ti: u64 = 0;
        let mut g: usize = self.gops.len();
        let ghost mut marked: Seq<u64> = Seq::empty();
        proof {
            lemma_marked_seen_none(self.tracker.sort);
        }
        while g > 0 && ti == 0
            invariant
                g <= self.gops@.len(),
                ti <= 1,
                self.wf(),
                counts_grew(old(self).counts, self.counts),
                self.counts.dropped == old(self).counts.dropped,
                self.enqueued == old(self).enqueued,
                self.settings == old(self).settings,
                self.gops@.len() == old(self).gops@.len(),
                self.tracker.range_start == old(self).tracker.range_start,
                self.tracker.sort.frame_count == old(self).tracker.sort.frame_count,
                self.tracker.sort.id_counter == old(self).tracker.sort.id_counter,
                self.eos_enc == old(self).eos_enc,
                self.eos_mask == old(self).eos_mask,
                self.counts.decoded_inference <= old(self).counts.decoded_inference + ti,
                marked_seen(old(self).tracker.sort, self.tracker.sort, marked),
                marked.len() == self.counts.decoded_inference - old(self).counts.decoded_inference,
                marked.len() <= ti,
                marked.len() == 1 ==> promoted_time(old(self).gops@, lo, hi, marked[0]),
                self.counts.decoded_inference == old(self).counts.decoded_inference ==> self.tracker
                    == old(self).tracker,
                self.counts.decoded_inference != old(self).counts.decoded_inference ==> exists|
                    t: u64,
                | lo <= t && #[trigger] all_marked(old(self).tracker, self.tracker, t),
                forall|k: int|
                    0 <= k < self.gops@.len() ==> same_envelope(
                        #[trigger] self.gops@[k],
                        old(self).gops@[k],
                    ),
                ti == 0 ==> forall|k: int|
                    g <= k < self.gops@.len() && overlaps(#[trigger] self.gops@[k], lo, hi)
                        ==> self.gops@[k].pending@.len() == 0 && forall|m: int|
                        0 <= m < self.gops@[k].out@.len() ==> self.gops@[k].out@[m].pts <= lo,
                forall|k: int| 0 <= k < g ==> #[trigger] self.gops@[k] == old(self).gops@[k],
                forall|k: int|
                    g + ti <= k < self.gops@.len() ==> passed(
                        old(self).gops@[k],
                        #[trigger] self.gops@[k],
                        lo,
                        hi,
                    ),
                ti == 1 ==> g < self.gops@.len() && overlaps(old(self).gops@[g as int], lo, hi)
                    && settles(old(self).gops@[g as int], lo) && settled(
                    old(self).gops@[g as int],
                    self.gops@[g as int],
                    lo,
                ),
            decreases g,
        {
            g = g - 1;
            let ghost og = old(self).gops@[g as int];
            assert(self.gops@[g as int] == og);
            if lo <= self.gops[g].max_pts && self.gops[g].min_pts <= hi {
                if self.gops[g].has_out_after(lo) {
                    ti = 1;
                } else {
                    let ghost s0 = self.gops@;
                    let mut gop = self.gops.remove(g);
                    let ghost old_len = gop.pending@.len();
                    let (dep, inf) = gop.decode_until(lo);
                    self.gops.insert(g, gop);
                    proof {
                        assert(self.gops@ =~= s0.update(g as int, gop));
                        lemma_pending_total_update(s0, g as int, gop);
                        assert(s0[g as int] == og);
                        assert forall|k: int| 0 <= k < self.gops@.len() && k != g implies #[trigger] self.gops@[k]
                            == s0[k] by {}
                        match inf {
                            None => {
                                assert(gop.out@ =~= og.out@ + as_deps(og.pending@));
                                assert(!settles(og, lo));
                                assert(passed(og, gop, lo, hi));
                            },
                            Some(t) => {
                                let j = dep as int;
                                assert(lo <= og.pending@[j].pts);
                                assert(settles(og, lo));
                                assert(settled(og, gop, lo));
                            },
                        }
                        if inf is None {
                            assert forall|m: int| 0 <= m < gop.out@.len() implies gop.out@[m].pts
                                <= lo by {
                                if m < s0[g as int].out@.len() {
                                    assert(gop.out@.subrange(0, s0[g as int].out@.len() as int)[m]
                                        == gop.out@[m]);
                                    assert(!(lo < s0[g as int].out@[m].pts));
                                }
                            }
                        }
                    }
                    self.counts.decoded_dependency = self.counts.decoded_dependency + dep;
                    match inf {
                        Some(t) => {
                            self.counts.decoded_inference = self.counts.decoded_inference + 1;
                            let ghost sb = self.tracker.sort;
                            self.tracker.seen(t);
                            proof {
                                assert(all_marked(old(self).tracker, self.tracker, t));
                                lemma_marked_seen_trans(old(self).tracker.sort, sb, self.tracker.sort, marked, seq![t]);
                                assert(marked.len() == 0);
                                marked = marked + seq![t];
                                assert(marked[0] == t);
                                let j = dep as int;
                                assert(og.pending@[j].pts == t);
                                assert(promoted_time(old(self).gops@, lo, hi, t));
                            }
                            ti = 1;
                        },
                        None => {},
                    }
                }
            }
        }
        proof {
            if ti == 0 {
                assert(g == 0);
                assert forall|k: int| 0 <= k < old(self).gops@.len() && overlaps(#[trigger] old(self).gops@[k], lo, hi)
                    implies !settles(old(self).gops@[k], lo) by {
                    assert(passed(old(self).gops@[k], self.gops@[k], lo, hi));
                }
            } else {
                assert(overlaps(old(self).gops@[g as int], lo, hi) && settles(old(self).gops@[g as int], lo));
            }
        }
        proof {
            assert(walk_result(old(self).gops@, self.gops@, lo, hi, ti));
        }
        ti
    }

    /// Over-decodes when fewer than `beta` inferences were made: in each
    /// overlapping GoP of `[lo, hi]` that already decodes a frame, from the
    /// newest, decodes up to `alpha` more pending frames, as many of them
    /// for inference as are still wanted, spread evenly. Returns the new
    /// count of inferences.
    #[verifier::rlimit(80)]
    pub fn extra_decode(&mut self, lo: u64, hi: u64, ti: u64) -> (r: u64)
        requires
            old(self).wf(),
            ti <= u32::MAX,
        ensures
            final(self).wf(),
            ti <= r,
            final(self).counts.decoded_inference == old(self).counts.decoded_inference + (r - ti),
            r <= if ti <= old(self).settings.beta { old(self).settings.beta as u64 } else { ti },
            final(self).counts.dropped == old(self).counts.dropped,
            counts_grew(old(self).counts, final(self).counts),
            final(self).enqueued == old(self).enqueued,
            final(self).settings == old(self).settings,
            final(self).gops@.len() == old(self).gops@.len(),
            forall|k: int|
                0 <= k < final(self).gops@.len() ==> same_envelope(
                    #[trigger] final(self).gops@[k],
                    old(self).gops@[k],
                ),
            final(self).tracker.range_start == old(self).tracker.range_start,
            final(self).tracker.sort.frame_count == old(self).tracker.sort.frame_count,
            final(self).tracker.sort.id_counter == old(self).tracker.sort.id_counter,
            final(self).eos_enc == old(self).eos_enc,
            final(self).eos_mask == old(self).eos_mask,
            old(self).settings.alpha == 0 || old(self).settings.beta == 0 ==> r == ti && *final(self)
                == *old(self),
            extra_result(
                old(self).gops@,
                final(self).gops@,
                ti,
                r,
                old(self).settings.alpha as int,
                old(self).settings.beta as int,
                lo,
                hi,
            ),
            exists|inf: Seq<int>|
                {
                    &&& inf.len() == old(self).gops@.len()
                    &&& r == ti + #[trigger] suffix_sum(inf, 0)
                    &&& marked_seen(
                        old(self).tracker.sort,
                        final(self).tracker.sort,
                        extra_marks(old(self).gops@, inf, old(self).settings.alpha as int, 0),
                    )
                    &&& forall|k: int|
                        0 <= k < inf.len() ==> extra_step(
                            old(self).gops@[k],
                            #[trigger] final(self).gops@[k],
                            ti + suffix_sum(inf, k + 1),
                            old(self).settings.alpha as int,
                            old(self).settings.beta as int,
                            lo,
                            hi,
                            inf[k],
                        )
                },
    {
        let beta = self.settings.beta as u64;
        let ghost zeros = Seq::new(self.gops@.len(), |j: int| 0int);
        proof {
            lemma_suffix_sum_zero(zeros, 0);
            assert forall|k: int| 0 <= k < zeros.len() implies #[trigger] suffix_sum(zeros, k + 1) == 0 by {
                lemma_suffix_sum_zero(zeros, k + 1);
            }
        }
        if ti >= beta {
            proof {
                lemma_marked_seen_none(self.tracker.sort);
                lemma_extra_marks_zero(old(self).gops@, zeros, old(self).settings.alpha as int, 0);
                assert forall|k: int| 0 <= k < zeros.len() implies extra_step(
                    old(self).gops@[k],
                    #[trigger] self.gops@[k],
                    ti + suffix_sum(zeros, k + 1),
                    old(self).settings.alpha as int,
                    old(self).settings.beta as int,
                    lo,
                    hi,
                    zeros[k],
                ) by {
                    assert(suffix_sum(zeros, k + 1) == 0);
                }
            }
            proof {
                assert(ti == ti + suffix_sum(zeros, 0));
                assert(extra_result(
                    old(self).gops@,
                    self.gops@,
                    ti,
                    ti,
                    old(self).settings.alpha as int,
                    old(self).settings.beta as int,
                    lo,
                    hi,
                ));
            }
            return ti;
        }
        let ghost mut inf = zeros;
        proof {
            lemma_marked_seen_none(self.tracker.sort);
            lemma_extra_marks_zero(old(self).gops@, zeros, old(self).settings.alpha as int, self.gops@.len() as int);
        }
        let alpha = self.settings.alpha as u64;
        let mut done = ti;
        let mut g: usize = self.gops.len();
        while g > 0
            invariant
                g <= self.gops@.len(),
                done <= beta,
                ti <= done,
                self.counts.decoded_inference == old(self).counts.decoded_inference + (done - ti),
                beta == old(self).settings.beta,
                alpha == old(self).settings.alpha,
                self.wf(),
                counts_grew(old(self).counts, self.counts),
                self.counts.dropped == old(self).counts.dropped,
                self.enqueued == old(self).enqueued,
                self.settings == old(self).settings,
                self.gops@.len() == old(self).gops@.len(),
                forall|k: int|
                    0 <= k < self.gops@.len() ==> same_envelope(
                        #[trigger] self.gops@[k],
                        old(self).gops@[k],
                    ),
                self.tracker.range_start == old(self).tracker.range_start,
                self.tracker.sort.frame_count == old(self).tracker.sort.frame_count,
                self.tracker.sort.id_counter == old(self).tracker.sort.id_counter,
                self.eos_enc == old(self).eos_enc,
                self.eos_mask == old(self).eos_mask,
                alpha == 0 ==> *self == *old(self) && done == ti,
                inf.len() == old(self).gops@.len(),
                forall|k: int| 0 <= k < g ==> #[trigger] inf[k] == 0,
                forall|k: int| 0 <= k < g ==> #[trigger] self.gops@[k] == old(self).gops@[k],
                done == ti + suffix_sum(inf, g as int),
                marked_seen(
                    old(self).tracker.sort,
                    self.tracker.sort,
                    extra_marks(old(self).gops@, inf, alpha as int, g as int),
                ),
                forall|k: int|
                    g <= k < inf.len() ==> extra_step(
                        old(self).gops@[k],
                        #[trigger] self.gops@[k],
                        ti + suffix_sum(inf, k + 1),
                        alpha as int,
                        beta as int,
                        lo,
                        hi,
                        inf[k],
                    ),
            decreases g,
        {
            g = g - 1;
            proof {
                assert(inf[g as int] == 0);
                assert(suffix_sum(inf, g as int) == inf[g as int] + suffix_sum(inf, g + 1));
                assert(extra_marks(old(self).gops@, inf, alpha as int, g as int) =~= extra_marks(
                    old(self).gops@,
                    inf,
                    alpha as int,
                    g + 1,
                ));
                assert(self.gops@[g as int] == old(self).gops@[g as int]);
            }
            let ghost took = false;
            if lo <= self.gops[g].max_pts && self.gops[g].min_pts <= hi && self.gops[g].out.len() > 0 {
                let n_pending = self.gops[g].pending.len() as u64;
                let n_dec = if n_pending < alpha {
                    n_pending
                } else {
                    alpha
                };
                let n_inf = if n_dec < beta - done {
                    n_dec
                } else {
                    beta - done
                };
                if n_dec > 0 && n_inf > 0 {
                    let ghost s0 = self.gops@;
                    let mut gop = self.gops.remove(g);
                    let times = gop.decode_spread(n_dec, n_inf);
                    self.gops.insert(g, gop);
                    let ghost gops_now = self.gops;
                    let ghost prev_marks = extra_marks(old(self).gops@, inf, alpha as int, g + 1);
                    let ghost sort0 = self.tracker.sort;
                    proof {
                        let inf2 = inf.update(g as int, n_inf as int);
                        lemma_extra_marks_update(old(self).gops@, inf, alpha as int, g as int, n_inf as int, g + 1);
                        assert(times@ =~= spread_times(s0[g as int].pending@, n_dec as int, n_inf as int));
                        assert forall|k: int| g < k <= inf.len() implies suffix_sum(inf2, k) == suffix_sum(inf, k) by {
                            lemma_suffix_sum_update(inf, g as int, n_inf as int, k);
                        }
                        lemma_suffix_sum_update(inf, g as int, n_inf as int, g as int);
                        assert(extra_step(
                            old(self).gops@[g as int],
                            self.gops@[g as int],
                            ti + suffix_sum(inf2, g + 1),
                            alpha as int,
                            beta as int,
                            lo,
                            hi,
                            inf2[g as int],
                        ));
                        assert forall|k: int| g < k < inf.len() implies extra_step(
                            old(self).gops@[k],
                            #[trigger] self.gops@[k],
                            ti + suffix_sum(inf2, k + 1),
                            alpha as int,
                            beta as int,
                            lo,
                            hi,
                            inf2[k],
                        ) by {
                            assert(self.gops@[k] == s0[k]);
                        }
                        assert forall|k: int| 0 <= k < g implies #[trigger] self.gops@[k]
                            == old(self).gops@[k] by {
                            assert(self.gops@[k] == s0[k]);
                        }
                        assert forall|k: int| 0 <= k < g implies #[trigger] inf2[k] == 0 by {
                            assert(inf2[k] == inf[k]);
                        }
                        inf = inf2;
                    }
                    proof {
                        assert(self.gops@ =~= s0.update(g as int, gop));
                        lemma_pending_total_update(s0, g as int, gop);
                        assert forall|k: int| 0 <= k < self.gops@.len() implies same_envelope(
                            #[trigger] self.gops@[k],
                            old(self).gops@[k],
                        ) by {
                            if k != g {
                                assert(self.gops@[k] == s0[k]);
                            }
                        }
                    }
                    self.counts.decoded_dependency = self.counts.decoded_dependency + (n_dec - n_inf);
                    self.counts.decoded_inference = self.counts.decoded_inference + n_inf;
                    let mut j: usize = 0;
                    while j < times.len()
                        invariant
                            j <= times@.len(),
                            self.wf(),
                            counts_grew(old(self).counts, self.counts),
                            self.counts.dropped == old(self).counts.dropped,
                self.counts.dropped == old(self).counts.dropped,
                            self.enqueued == old(self).enqueued,
                            self.settings == old(self).settings,
                            self.gops@.len() == old(self).gops@.len(),
                forall|k: int|
                    0 <= k < self.gops@.len() ==> same_envelope(
                        #[trigger] self.gops@[k],
                        old(self).gops@[k],
                    ),
                            self.tracker.range_start == old(self).tracker.range_start,
                            self.tracker.sort.frame_count == old(self).tracker.sort.frame_count,
                            self.tracker.sort.id_counter == old(self).tracker.sort.id_counter,
                            self.eos_enc == old(self).eos_enc,
                            self.eos_mask == old(self).eos_mask,
                            self.gops == gops_now,
                            marked_seen(old(self).tracker.sort, sort0, prev_marks),
                            marked_seen(old(self).tracker.sort, self.tracker.sort, prev_marks + times@.take(j as int)),
                            self.counts.decoded_inference == old(self).counts.decoded_inference + (done
                                + n_inf - ti),
                        decreases times@.len() - j,
                    {
                        let ghost sb = self.tracker.sort;
                        self.tracker.seen(times[j]);
                        proof {
                            lemma_marked_seen_trans(
                                old(self).tracker.sort,
                                sb,
                                self.tracker.sort,
                                prev_marks + times@.take(j as int),
                                seq![times@[j as int]],
                            );
                            assert(prev_marks + times@.take(j as int) + seq![times@[j as int]] =~= prev_marks
                                + times@.take(j + 1));
                        }
                        j += 1;
                    }
                    proof {
                        assert(times@.take(j as int) =~= times@);
                        assert(s0[g as int] == old(self).gops@[g as int]);
                        assert(extra_marks(old(self).gops@, inf, alpha as int, g as int) == prev_marks
                            + spread_times(old(self).gops@[g as int].pending@, n_dec as int, n_inf as int));
                    }
                    done = done + n_inf;
                }
            }
        }
        proof {
            assert(g == 0);
            assert(extra_result(
                old(self).gops@,
                self.gops@,
                ti,
                done,
                old(self).settings.alpha as int,
                old(self).settings.beta as int,
                lo,
                hi,
            ));
        }
        done
    }

    /// Lets go of the closed GoPs that end at least `GOP_NS` before `pts`:
    /// with `infer_i`, their IDR frame is decoded for inference (a first
    /// pending frame that is not an IDR frame is dropped); their decode
    /// lists, when not empty, are returned; their other pending frames are
    /// dropped.
    fn release_old(&mut self, pts: u64) -> (lists: Vec<Vec<EncFrame<B>>>)
        requires
            old(self).wf(),
        ensures
            final(self).wf(),
            counts_grew(old(self).counts, final(self).counts),
            final(self).enqueued == old(self).enqueued,
            final(self).settings == old(self).settings,
            final(self).gops@.len() <= old(self).gops@.len(),
            final(self).gops@ == gops_kept(old(self).gops@, pts),
            final(self).counts.decoded_inference == old(self).counts.decoded_inference + release_counts(
                old(self).gops@,
                pts,
                old(self).settings.infer_i,
            ).0,
            final(self).counts.dropped == old(self).counts.dropped + release_counts(
                old(self).gops@,
                pts,
                old(self).settings.infer_i,
            ).1,
            final(self).counts.decoded_dependency == old(self).counts.decoded_dependency,
            lists@.len() == release_lists(old(self).gops@, pts, old(self).settings.infer_i).len(),
            forall|k: int|
                0 <= k < lists@.len() ==> (#[trigger] lists@[k])@ == release_lists(
                    old(self).gops@,
                    pts,
                    old(self).settings.infer_i,
                )[k],
            final(self).tracker == old(self).tracker,
            final(self).eos_enc == old(self).eos_enc,
            final(self).eos_mask == old(self).eos_mask,
    {
        let ghost g0 = self.gops@;
        let ghost mut done: int = 0;
        let droppable = if pts >= GOP_NS {
            pts - GOP_NS
        } else {
            0
        };
        let infer_i = self.settings.infer_i;
        let mut rest: Vec<Gop<B>> = Vec::new();
        std::mem::swap(&mut rest, &mut self.gops);
        let mut lists: Vec<Vec<EncFrame<B>>> = Vec::new();
        proof {
            assert(g0.skip(0) =~= g0);
            assert(g0.take(0) =~= Seq::<Gop<B>>::empty());
        }
        while rest.len() > 0
            invariant
                counts_grew(old(self).counts, self.counts),
                self.counts.decoded_dependency + self.counts.decoded_inference + self.counts.dropped
                    + pending_total(self.gops@) + pending_total(rest@) == self.enqueued,
                self.gops@.len() + rest@.len() <= old(self).gops@.len(),
                0 <= done <= g0.len(),
                g0 == old(self).gops@,
                rest@ == g0.skip(done),
                self.gops@ == gops_kept(g0.take(done), pts),
                self.counts.decoded_inference == old(self).counts.decoded_inference + release_counts(
                    g0.take(done),
                    pts,
                    infer_i,
                ).0,
                self.counts.dropped == old(self).counts.dropped + release_counts(g0.take(done), pts, infer_i).1,
                self.counts.decoded_dependency == old(self).counts.decoded_dependency,
                lists@.len() == release_lists(g0.take(done), pts, infer_i).len(),
                forall|k: int|
                    0 <= k < lists@.len() ==> (#[trigger] lists@[k])@ == release_lists(
                        g0.take(done),
                        pts,
                        infer_i,
                    )[k],
                droppable == droppable_before(pts),
                self.enqueued == old(self).enqueued,
                self.settings == old(self).settings,
                infer_i == self.settings.infer_i,
                self.tracker == old(self).tracker,
                self.tracker.sort.wf(),
                self.eos_enc == old(self).eos_enc,
                self.eos_mask == old(self).eos_mask,
            decreases rest@.len(),
        {
            proof {
                lemma_pending_total_remove_first(rest@);
            }
            let ghost r0 = rest@;
            let mut gop = rest.remove(0);
            proof {
                assert(rest@ =~= r0.drop_first());
                assert(gop == g0[done]);
                assert(g0.take(done + 1).drop_last() =~= g0.take(done));
                assert(g0.take(done + 1).last() == gop);
                assert(rest@ =~= g0.skip(done + 1));
                done = done + 1;
            }
            if gop.finalized && gop.max_pts <= droppable {
                if infer_i && gop.pending.len() > 0 {
                    let f = gop.pending.remove(0);
                    if !f.delta {
                        gop.out.push(f);
                        self.counts.decoded_inference = self.counts.decoded_inference + 1;
                    } else {
                        self.counts.dropped = self.counts.dropped + 1;
                    }
                }
                let n = gop.pending.len() as u64;
                self.counts.dropped = self.counts.dropped + n;
                proof {
                    assert(gop.out@ == release_list(g0[done - 1], infer_i));
                }
                let ghost l0 = lists@;
                if gop.out.len() > 0 {
                    lists.push(gop.out);
                    proof {
                        assert forall|k: int| 0 <= k < lists@.len() implies (#[trigger] lists@[k])@
                            == release_lists(g0.take(done), pts, infer_i)[k] by {
                            if k < l0.len() {
                                assert(lists@[k] == l0[k]);
                            }
                        }
                    }
                }
            } else {
                let ghost k0 = self.gops@;
                self.gops.push(gop);
                proof {
                    lemma_pending_total_push(k0, gop);
                }
            }
        }
        proof {
            assert(g0.take(done) =~= g0);
            assert(pending_total(rest@) == 0);
        }
        lists
    }

    /// Takes in the mask boxes of the frame at time `pts`: runs the
    /// tracker; when tracks died, makes sure the frames their objects need
    /// are decoded (over-decoding as `alpha` and `beta` allow); then lets
    /// go of the old GoPs.
    #[verifier::rlimit(80)]
    pub fn on_mask<M: Matcher>(&mut self, bboxes: Vec<Bbox>, pts: u64, matcher: &M) -> (r: Result<
        MaskOutput<B>,
        SchedulerError,
    >)
        requires
            old(self).wf(),
        ensures
            final(self).wf(),
            counts_grew(old(self).counts, final(self).counts),
            final(self).enqueued == old(self).enqueued,
            final(self).settings == old(self).settings,
            r is Err <==> old(self).tracker.sort.frame_count == u64::MAX || old(
                self,
            ).tracker.sort.id_counter + bboxes@.len() > u64::MAX,
            r is Err ==> *final(self) == *old(self),
            r matches Ok(o) ==> {
                &&& final(self).tracker.sort.frame_count == old(self).tracker.sort.frame_count + 1
                &&& final(self).tracker.range_start == Some(
                    match old(self).tracker.range_start {
                        Some(s) => s,
                        None => pts,
                    },
                )
            },
            r is Ok ==> exists|
                s1: Sort<K>,
                dead: Seq<KalmanBoxTracker<K>>,
                g: Seq<Gop<B>>,
                ng: Seq<Gop<B>>,
                rs: u64,
                ns: Sort<K>,
                o: MaskOutput<B>,
            |
                #[trigger] mask_outcome(
                    old(self).tracker.sort,
                    old(self).gops@,
                    old(self).settings,
                    ng,
                    rs,
                    ns,
                    final(self).counts.dropped,
                    old(self).counts.dropped,
                    o,
                    s1,
                    dead,
                    g,
                    bboxes@,
                    pts,
                ) && ng == final(self).gops@ && Some(rs) == final(self).tracker.range_start && ns
                    == final(self).tracker.sort && r
                    == Ok::<MaskOutput<B>, SchedulerError>(o),
    {
        if self.tracker.sort.frame_count == u64::MAX || self.tracker.sort.id_counter as u128
            + bboxes.len() as u128 > u64::MAX as u128 {
            return Err(SchedulerError::Exhausted);
        }
        let ghost bs = bboxes@;
        let out = self.tracker.update(bboxes, pts, matcher);
        let ghost s1 = self.tracker.sort;
        proof {
            let (m, p, mid) = choose|m: Seq<(usize, usize)>, p: Seq<KalmanBoxTracker<K>>, mid: Seq<
                KalmanBoxTracker<K>,
            >| step_with(old(self).tracker.sort, s1, bs, pts, out.dead@, m, p, mid);
            assert(s1.frame_count == old(self).tracker.sort.frame_count + 1);
        }
        let ghost g1 = self.gops@;
        let ghost g_counts = self.counts;
        let ghost mut tm: Seq<u64> = Seq::empty();
        proof {
            lemma_marked_seen_none(s1);
        }
        let ghost g_counts = self.counts;
        let ghost mut tm: Seq<u64> = Seq::empty();
        proof {
            lemma_marked_seen_none(s1);
        }
        let maxage_pts = FRAME_NS * (self.settings.sort_maxage as u64 + SAFETY_BUFFER);
        let hi = if pts >= maxage_pts {
            pts - maxage_pts
        } else {
            0
        };
        match out.min_required {
            Some(lo) => {
                let ti = self.require_inference(lo, hi);
                let ghost mid = self.gops@;
                let ghost s_req = self.tracker.sort;
                proof {
                    let ts1 = choose|ts: Seq<u64>| #[trigger] marked_seen(s1, s_req, ts) && ts.len()
                        == self.counts.decoded_inference - g_counts.decoded_inference && ts.len() <= 1
                        && (ts.len() == 1 ==> promoted_time(g1, lo, hi, ts[0]));
                    tm = ts1;
                }
                let t2 = self.extra_decode(lo, hi, ti);
                proof {
                    let inf = choose|inf: Seq<int>|
                        {
                            &&& inf.len() == mid.len()
                            &&& t2 == ti + #[trigger] suffix_sum(inf, 0)
                            &&& marked_seen(
                                s_req,
                                self.tracker.sort,
                                extra_marks(mid, inf, self.settings.alpha as int, 0),
                            )
                            &&& forall|k: int|
                                0 <= k < inf.len() ==> extra_step(
                                    mid[k],
                                    #[trigger] self.gops@[k],
                                    ti + suffix_sum(inf, k + 1),
                                    self.settings.alpha as int,
                                    self.settings.beta as int,
                                    lo,
                                    hi,
                                    inf[k],
                                )
                        };
                    lemma_marked_seen_trans(
                        s1,
                        s_req,
                        self.tracker.sort,
                        tm,
                        extra_marks(mid, inf, self.settings.alpha as int, 0),
                    );
                    tm = tm + extra_marks(mid, inf, self.settings.alpha as int, 0);
                }
                proof {
                    assert(hi == window_end(pts, self.settings.sort_maxage));
                    assert(walk_result(old(self).gops@, mid, lo, hi, ti));
                    assert(decisions(old(self).gops@, self.gops@, out.dead@, pts, self.settings));
                }
            },
            None => {},
        }
        let ghost g2 = self.gops@;
        proof {
            assert(marked_seen(s1, self.tracker.sort, tm));
            assert forall|k: int| 0 <= k < g2.len() implies same_envelope(#[trigger] g2[k], old(self).gops@[k]) by {
                assert(g1[k] == old(self).gops@[k]);
            }
        }
        let lists = self.release_old(pts);
        let ghost dead = out.dead@;
        let res = MaskOutput { lists, records: out.records };
        proof {
            assert(decisions(old(self).gops@, g2, dead, pts, old(self).settings));
            assert(mask_outcome(
                old(self).tracker.sort,
                old(self).gops@,
                old(self).settings,
                self.gops@,
                self.tracker.range_start->0,
                self.tracker.sort,
                self.counts.dropped,
                old(self).counts.dropped,
                res,
                s1,
                dead,
                g2,
                bs,
                pts,
            ));
            assert(self.tracker.sort.frame_count == old(self).tracker.sort.frame_count + 1);
            assert(self.tracker.range_start == Some(
                match old(self).tracker.range_start {
                    Some(s) => s,
                    None => pts,
                },
            ));
        }
        Ok(res)
    }

    /// Sends on every GoP's decode list and drops every pending frame.
    fn flush_all(&mut self) -> (lists: Vec<Vec<EncFrame<B>>>)
        requires
            old(self).wf(),
        ensures
            final(self).wf(),
            final(self).gops@.len() == 0,
            lists@.len() == old(self).gops@.len(),
            forall|k: int| 0 <= k < lists@.len() ==> (#[trigger] lists@[k])@ == old(self).gops@[k].out@,
            final(self).counts.dropped == old(self).counts.dropped + pending_total(old(self).gops@),
            counts_grew(old(self).counts, final(self).counts),
            final(self).counts.decoded_dependency == old(self).counts.decoded_dependency,
            final(self).counts.decoded_inference == old(self).counts.decoded_inference,
            final(self).enqueued == old(self).enqueued,
            final(self).settings == old(self).settings,
            final(self).tracker == old(self).tracker,
            final(self).eos_enc == old(self).eos_enc,
            final(self).eos_mask == old(self).eos_mask,
    {
        let mut rest: Vec<Gop<B>> = Vec::new();
        std::mem::swap(&mut rest, &mut self.gops);
        let mut lists: Vec<Vec<EncFrame<B>>> = Vec::new();
        proof {
            assert(rest@ =~= old(self).gops@.skip(0));
        }
        while rest.len() > 0
            invariant
                counts_grew(old(self).counts, self.counts),
                self.counts.decoded_dependency == old(self).counts.decoded_dependency,
                self.counts.decoded_inference == old(self).counts.decoded_inference,
                self.counts.decoded_dependency + self.counts.decoded_inference + self.counts.dropped
                    + pending_total(rest@) == self.enqueued,
                self.gops@.len() == 0,
                lists@.len() + rest@.len() == old(self).gops@.len(),
                rest@ == old(self).gops@.skip(lists@.len() as int),
                forall|k: int| 0 <= k < lists@.len() ==> (#[trigger] lists@[k])@ == old(self).gops@[k].out@,
                counts_agree(old(self).counts, old(self).gops@, old(self).enqueued),
                self.enqueued == old(self).enqueued,
                self.settings == old(self).settings,
                self.tracker == old(self).tracker,
                self.tracker.sort.wf(),
                self.eos_enc == old(self).eos_enc,
                self.eos_mask == old(self).eos_mask,
            decreases rest@.len(),
        {
            proof {
                lemma_pending_total_remove_first(rest@);
            }
            let ghost r0 = rest@;
            let gop = rest.remove(0);
            proof {
                assert(rest@ =~= r0.drop_first());
            }
            let n = gop.pending.len() as u64;
            self.counts.dropped = self.counts.dropped + n;
            let ghost l0 = lists@;
            proof {
                assert(gop == old(self).gops@[l0.len() as int]);
                assert(rest@ =~= old(self).gops@.skip(l0.len() as int + 1));
            }
            lists.push(gop.out);
            proof {
                assert forall|k: int| 0 <= k < lists@.len() implies (#[trigger] lists@[k])@ == old(
                    self,
                ).gops@[k].out@ by {
                    if k < l0.len() {
                        assert(lists@[k] == l0[k]);
                    }
                }
            }
        }
        proof {
            assert(pending_total(self.gops@) == 0);
            assert(old(self).gops@.skip(0) =~= old(self).gops@);
        }
        lists
    }

    /// End of stream on one input; once both inputs have ended, every
    /// decode list is sent on, every pending frame dropped and the tracker
    /// flushed.
    fn on_eos(&mut self, from_mask: bool) -> (r: Option<MaskOutput<B>>)
        requires
            old(self).wf(),
        ensures
            final(self).wf(),
            counts_grew(old(self).counts, final(self).counts),
            final(self).enqueued == old(self).enqueued,
            final(self).eos_enc == (old(self).eos_enc || !from_mask),
            final(self).eos_mask == (old(self).eos_mask || from_mask),
            r is Some <==> final(self).eos_enc && final(self).eos_mask,
            r matches Some(out) ==> flushed(*old(self), *final(self), out),
            r is Some ==> final(self).gops@.len() == 0 && final(self).counts.decoded_dependency
                + final(self).counts.decoded_inference + final(self).counts.dropped
                == final(self).enqueued,
    {
        if from_mask {
            self.eos_mask = true;
        } else {
            self.eos_enc = true;
        }
        if self.eos_enc && self.eos_mask {
            let lists = self.flush_all();
            let records = self.tracker.flush().records;
            Some(MaskOutput { lists, records })
        } else {
            None
        }
    }

    /// End of stream on the encoded input.
    pub fn on_eos_enc(&mut self) -> (r: Option<MaskOutput<B>>)
        requires
            old(self).wf(),
        ensures
            final(self).wf(),
            counts_grew(old(self).counts, final(self).counts),
            final(self).enqueued == old(self).enqueued,
            final(self).eos_enc,
            final(self).eos_mask == old(self).eos_mask,
            r is Some <==> old(self).eos_mask,
            r matches Some(out) ==> flushed(*old(self), *final(self), out),
            r is Some ==> final(self).gops@.len() == 0 && final(self).counts.decoded_dependency
                + final(self).counts.decoded_inference + final(self).counts.dropped
                == final(self).enqueued,
    {
        self.on_eos(false)
    }

    /// End of stream on the mask input.
    pub fn on_eos_mask(&mut self) -> (r: Option<MaskOutput<B>>)
        requires
            old(self).wf(),
        ensures
            final(self).wf(),
            counts_grew(old(self).counts, final(self).counts),
            final(self).enqueued == old(self).enqueued,
            final(self).eos_mask,
            final(self).eos_enc == old(self).eos_enc,
            r is Some <==> old(self).eos_enc,
            r matches Some(out) ==> flushed(*old(self), *final(self), out),
            r is Some ==> final(self).gops@.len() == 0 && final(self).counts.decoded_dependency
                + final(self).counts.decoded_inference + final(self).counts.dropped
                == final(self).enqueued,
    {
        self.on_eos(true)
    }
}

} // verus!
