//! Binary wire format of boxes and frames: little-endian fixed-width
//! integers, a one-byte 0/1 tag before each optional field, a `u64` count
//! before a list, and a 4-byte big-endian length before each record on a
//! stream.
use vstd::prelude::*;
use vstd::bytes::*;
use vstd::slice::slice_subrange;
use crate::bbox::{Bbox, Frame};

verus! {

/// Why a byte string is not an encoded value.
#[derive(Clone, Copy, Debug, PartialEq, Eq, Structural)]
pub enum DecodeError {
    /// The bytes end early or hold a tag other than 0 or 1.
    Malformed,
}

pub open spec fn opt_u64_bytes(o: Option<u64>) -> Seq<u8> {
    match o {
        Option::None => seq![0u8],
        Option::Some(v) => seq![1u8] + spec_u64_to_le_bytes(v),
    }
}

pub open spec fn opt_u32_bytes(o: Option<u32>) -> Seq<u8> {
    match o {
        Option::None => seq![0u8],
        Option::Some(v) => seq![1u8] + spec_u32_to_le_bytes(v),
    }
}

/// The encoding of one box.
pub open spec fn bbox_bytes(b: Bbox) -> Seq<u8> {
    spec_u32_to_le_bytes(b.left) + spec_u32_to_le_bytes(b.top) + spec_u32_to_le_bytes(b.width)
        + spec_u32_to_le_bytes(b.height) + spec_u32_to_le_bytes(b.area) + opt_u64_bytes(
        b.track_id,
    ) + opt_u64_bytes(b.timestamp) + opt_u32_bytes(b.class_id) + opt_u32_bytes(b.confidence)
}

/// The encodings of the boxes of `s`, one after the other.
pub open spec fn bboxes_bytes(s: Seq<Bbox>) -> Seq<u8>
    decreases s.len(),
{
    if s.len() == 0 {
        Seq::empty()
    } else {
        bboxes_bytes(s.drop_last()) + bbox_bytes(s.last())
    }
}

/// The encoding of a list of boxes: its length, then the boxes.
pub open spec fn list_bytes(s: Seq<Bbox>) -> Seq<u8> {
    spec_u64_to_le_bytes(s.len() as u64) + bboxes_bytes(s)
}

/// The encoding of a frame.
pub open spec fn frame_bytes(range_start: u64, oldest: u64, s: Seq<Bbox>) -> Seq<u8> {
    spec_u64_to_le_bytes(range_start) + spec_u64_to_le_bytes(oldest) + list_bytes(s)
}

/// `bytes` holds `enc` from position `pos` on.
pub open spec fn holds_at(bytes: Seq<u8>, pos: int, enc: Seq<u8>) -> bool {
    &&& 0 <= pos
    &&& pos + enc.len() <= bytes.len()
    &&& bytes.subrange(pos, pos + enc.len()) == enc
}

proof fn lemma_holds_at_concat(bytes: Seq<u8>, pos: int, a: Seq<u8>, b: Seq<u8>)
    ensures
        holds_at(bytes, pos, a + b) <==> (holds_at(bytes, pos, a) && holds_at(
            bytes,
            pos + a.len(),
            b,
        )),
{
    if holds_at(bytes, pos, a + b) {
        let s = bytes.subrange(pos, pos + a.len() + b.len());
        assert forall|i: int| 0 <= i < a.len() implies bytes[pos + i] == a[i] by {
            assert(s[i] == (a + b)[i]);
        }
        assert forall|i: int| 0 <= i < b.len() implies bytes[pos + a.len() + i] == b[i] by {
            assert(s[a.len() + i] == (a + b)[a.len() + i]);
        }
        assert(bytes.subrange(pos, pos + a.len()) =~= a);
        assert(bytes.subrange(pos + a.len(), pos + a.len() + b.len()) =~= b);
    }
    if holds_at(bytes, pos, a) && holds_at(bytes, pos + a.len(), b) {
        let sa = bytes.subrange(pos, pos + a.len());
        let sb = bytes.subrange(pos + a.len(), pos + a.len() + b.len());
        assert forall|i: int| 0 <= i < a.len() + b.len() implies bytes[pos + i] == (a + b)[i] by {
            if i < a.len() {
                assert(sa[i] == a[i]);
            } else {
                assert(sb[i - a.len()] == b[i - a.len()]);
            }
        }
        assert(bytes.subrange(pos, pos + (a + b).len()) =~= a + b);
    }
}

proof fn lemma_bboxes_bytes_push(s: Seq<Bbox>, b: Bbox)
    ensures
        bboxes_bytes(s.push(b)) == bboxes_bytes(s) + bbox_bytes(b),
{
    assert(s.push(b).drop_last() =~= s);
}

proof fn lemma_bboxes_bytes_prefix(s: Seq<Bbox>, i: int)
    requires
        0 <= i <= s.len(),
    ensures
        bboxes_bytes(s) == bboxes_bytes(s.take(i)) + bboxes_bytes(s.skip(i)),
    decreases s.len() - i,
{
    if i == s.len() {
        assert(s.take(i) =~= s);
        assert(s.skip(i) =~= Seq::<Bbox>::empty());
        assert(bboxes_bytes(s.skip(i)) =~= Seq::<u8>::empty());
        assert(bboxes_bytes(s) + Seq::<u8>::empty() =~= bboxes_bytes(s));
    } else {
        lemma_bboxes_bytes_prefix(s, i + 1);
        assert(s.take(i + 1) =~= s.take(i).push(s[i]));
        lemma_bboxes_bytes_push(s.take(i), s[i]);
        let rest = s.skip(i);
        assert(rest.len() > 0);
        if rest.len() == 1 {
            assert(s.skip(i + 1) =~= Seq::<Bbox>::empty());
            assert(rest.drop_last() =~= Seq::<Bbox>::empty());
        }
        lemma_bboxes_bytes_cons(s[i], s.skip(i + 1));
        assert(seq![s[i]] + s.skip(i + 1) =~= rest);
    }
}

proof fn lemma_bboxes_bytes_cons(b: Bbox, s: Seq<Bbox>)
    ensures
        bboxes_bytes(seq![b] + s) == bbox_bytes(b) + bboxes_bytes(s),
    decreases s.len(),
{
    if s.len() == 0 {
        assert(seq![b] + s =~= seq![b]);
        assert(seq![b].drop_last() =~= Seq::<Bbox>::empty());
        assert(bboxes_bytes(Seq::<Bbox>::empty()) == Seq::<u8>::empty());
        assert(bboxes_bytes(seq![b]) == bboxes_bytes(seq![b].drop_last()) + bbox_bytes(b));
        assert(bbox_bytes(b) + Seq::<u8>::empty() =~= bbox_bytes(b));
        assert(Seq::<u8>::empty() + bbox_bytes(b) =~= bbox_bytes(b));
    } else {
        lemma_bboxes_bytes_cons(b, s.drop_last());
        assert((seq![b] + s).drop_last() =~= seq![b] + s.drop_last());
        assert((seq![b] + s).last() == s.last());
        assert(bboxes_bytes(seq![b] + s) == bboxes_bytes((seq![b] + s).drop_last()) + bbox_bytes(
            s.last(),
        ));
        let x = bbox_bytes(b);
        let y = bboxes_bytes(s.drop_last());
        let z = bbox_bytes(s.last());
        assert((x + y) + z =~= x + (y + z));
    }
}

fn write_u32(out: &mut Vec<u8>, v: u32)
    ensures
        final(out)@ == old(out)@ + spec_u32_to_le_bytes(v),
{
    let mut b = u32_to_le_bytes(v);
    out.append(&mut b);
}

fn write_u64(out: &mut Vec<u8>, v: u64)
    ensures
        final(out)@ == old(out)@ + spec_u64_to_le_bytes(v),
{
    let mut b = u64_to_le_bytes(v);
    out.append(&mut b);
}

fn write_opt_u64(out: &mut Vec<u8>, o: Option<u64>)
    ensures
        final(out)@ == old(out)@ + opt_u64_bytes(o),
{
    match o {
        Option::None => {
            out.push(0u8);
            assert(out@ =~= old(out)@ + opt_u64_bytes(o));
        },
        Option::Some(v) => {
            out.push(1u8);
            write_u64(out, v);
            assert(out@ =~= old(out)@ + opt_u64_bytes(o));
        },
    }
}

fn write_opt_u32(out: &mut Vec<u8>, o: Option<u32>)
    ensures
        final(out)@ == old(out)@ + opt_u32_bytes(o),
{
    match o {
        Option::None => {
            out.push(0u8);
            assert(out@ =~= old(out)@ + opt_u32_bytes(o));
        },
        Option::Some(v) => {
            out.push(1u8);
            write_u32(out, v);
            assert(out@ =~= old(out)@ + opt_u32_bytes(o));
        },
    }
}

/// Appends the encoding of `b` to `out`.
pub fn write_bbox(out: &mut Vec<u8>, b: &Bbox)
    ensures
        final(out)@ == old(out)@ + bbox_bytes(*b),
{
    let ghost o = out@;
    write_u32(out, b.left);
    write_u32(out, b.top);
    write_u32(out, b.width);
    write_u32(out, b.height);
    write_u32(out, b.area);
    write_opt_u64(out, b.track_id);
    write_opt_u64(out, b.timestamp);
    write_opt_u32(out, b.class_id);
    write_opt_u32(out, b.confidence);
    assert(out@ =~= o + bbox_bytes(*b));
}

/// Appends the encoding of the list `bs` (its length, then each box).
pub fn write_list(out: &mut Vec<u8>, bs: &Vec<Bbox>)
    ensures
        final(out)@ == old(out)@ + list_bytes(bs@),
{
    let ghost o = out@;
    write_u64(out, bs.len() as u64);
    let mut i: usize = 0;
    while i < bs.len()
        invariant
            i <= bs@.len(),
            out@ == o + spec_u64_to_le_bytes(bs@.len() as u64) + bboxes_bytes(bs@.take(i as int)),
        decreases bs@.len() - i,
    {
        proof {
            lemma_bboxes_bytes_push(bs@.take(i as int), bs@[i as int]);
            assert(bs@.take(i as int + 1) =~= bs@.take(i as int).push(bs@[i as int]));
        }
        write_bbox(out, &bs[i]);
        i += 1;
    }
    assert(bs@.take(i as int) =~= bs@);
    assert(out@ =~= o + list_bytes(bs@));
}

fn read_u32(bytes: &[u8], pos: usize) -> (r: Option<u32>)
    ensures
        r is Some <==> pos + 4 <= bytes@.len(),
        r matches Option::Some(v) ==> holds_at(bytes@, pos as int, spec_u32_to_le_bytes(v)),
        forall|v: u32| #[trigger]
            holds_at(bytes@, pos as int, spec_u32_to_le_bytes(v)) ==> r == Option::Some(v),
{
    proof {
        lemma_auto_spec_u32_to_from_le_bytes();
    }
    if pos <= bytes.len() && bytes.len() - pos >= 4 {
        let s = slice_subrange(bytes, pos, pos + 4);
        let v = u32_from_le_bytes(s);
        assert(s@ == bytes@.subrange(pos as int, pos + 4));
        Option::Some(v)
    } else {
        Option::None
    }
}

fn read_u64(bytes: &[u8], pos: usize) -> (r: Option<u64>)
    ensures
        r is Some <==> pos + 8 <= bytes@.len(),
        r matches Option::Some(v) ==> holds_at(bytes@, pos as int, spec_u64_to_le_bytes(v)),
        forall|v: u64| #[trigger]
            holds_at(bytes@, pos as int, spec_u64_to_le_bytes(v)) ==> r == Option::Some(v),
{
    proof {
        lemma_auto_spec_u64_to_from_le_bytes();
    }
    if pos <= bytes.len() && bytes.len() - pos >= 8 {
        let s = slice_subrange(bytes, pos, pos + 8);
        let v = u64_from_le_bytes(s);
        assert(s@ == bytes@.subrange(pos as int, pos + 8));
        Option::Some(v)
    } else {
        Option::None
    }
}

proof fn lemma_tag_at(bytes: Seq<u8>, pos: int, t: u8, rest: Seq<u8>)
    requires
        holds_at(bytes, pos, seq![t] + rest),
    ensures
        pos < bytes.len(),
        bytes[pos] == t,
        holds_at(bytes, pos + 1, rest),
{
    lemma_holds_at_concat(bytes, pos, seq![t], rest);
    assert(bytes.subrange(pos, pos + 1)[0] == t);
}

proof fn lemma_tag_only(bytes: Seq<u8>, pos: int, t: u8)
    requires
        0 <= pos < bytes.len(),
        bytes[pos] == t,
    ensures
        holds_at(bytes, pos, seq![t]),
{
    assert(bytes.subrange(pos, pos + 1) =~= seq![t]);
}

fn read_opt_u64(bytes: &[u8], pos: usize) -> (r: Option<(Option<u64>, usize)>)
    ensures
        r matches Option::Some((o, p)) ==> p == pos + opt_u64_bytes(o).len() && holds_at(
            bytes@,
            pos as int,
            opt_u64_bytes(o),
        ),
        forall|o: Option<u64>| #[trigger]
            holds_at(bytes@, pos as int, opt_u64_bytes(o)) ==> r == Option::Some(
                (o, (pos + opt_u64_bytes(o).len()) as usize),
            ),
{
    proof {
        lemma_auto_spec_u64_to_from_le_bytes();
        assert forall|v: u64| #[trigger]
            holds_at(bytes@, pos as int, opt_u64_bytes(Option::Some(v))) implies bytes@[pos as int]
            == 1 && holds_at(bytes@, pos + 1, spec_u64_to_le_bytes(v)) by {
            lemma_tag_at(bytes@, pos as int, 1u8, spec_u64_to_le_bytes(v));
        }
        if holds_at(bytes@, pos as int, opt_u64_bytes(Option::None)) {
            assert(bytes@.subrange(pos as int, pos + 1)[0] == 0u8);
        }
    }
    if pos >= bytes.len() {
        return Option::None;
    }
    let tag = bytes[pos];
    if tag == 0 {
        proof {
            lemma_tag_only(bytes@, pos as int, 0u8);
        }
        Option::Some((Option::None, pos + 1))
    } else if tag == 1 {
        match read_u64(bytes, pos + 1) {
            Option::Some(v) => {
                proof {
                    lemma_tag_only(bytes@, pos as int, 1u8);
                    lemma_holds_at_concat(bytes@, pos as int, seq![1u8], spec_u64_to_le_bytes(v));
                }
                Option::Some((Option::Some(v), pos + 9))
            },
            Option::None => Option::None,
        }
    } else {
        Option::None
    }
}

fn read_opt_u32(bytes: &[u8], pos: usize) -> (r: Option<(Option<u32>, usize)>)
    ensures
        r matches Option::Some((o, p)) ==> p == pos + opt_u32_bytes(o).len() && holds_at(
            bytes@,
            pos as int,
            opt_u32_bytes(o),
        ),
        forall|o: Option<u32>| #[trigger]
            holds_at(bytes@, pos as int, opt_u32_bytes(o)) ==> r == Option::Some(
                (o, (pos + opt_u32_bytes(o).len()) as usize),
            ),
{
    proof {
        lemma_auto_spec_u32_to_from_le_bytes();
        assert forall|v: u32| #[trigger]
            holds_at(bytes@, pos as int, opt_u32_bytes(Option::Some(v))) implies bytes@[pos as int]
            == 1 && holds_at(bytes@, pos + 1, spec_u32_to_le_bytes(v)) by {
            lemma_tag_at(bytes@, pos as int, 1u8, spec_u32_to_le_bytes(v));
        }
        if holds_at(bytes@, pos as int, opt_u32_bytes(Option::None)) {
            assert(bytes@.subrange(pos as int, pos + 1)[0] == 0u8);
        }
    }
    if pos >= bytes.len() {
        return Option::None;
    }
    let tag = bytes[pos];
    if tag == 0 {
        proof {
            lemma_tag_only(bytes@, pos as int, 0u8);
        }
        Option::Some((Option::None, pos + 1))
    } else if tag == 1 {
        match read_u32(bytes, pos + 1) {
            Option::Some(v) => {
                proof {
                    lemma_tag_only(bytes@, pos as int, 1u8);
                    lemma_holds_at_concat(bytes@, pos as int, seq![1u8], spec_u32_to_le_bytes(v));
                }
                Option::Some((Option::Some(v), pos + 5))
            },
            Option::None => Option::None,
        }
    } else {
        Option::None
    }
}

/// Each field of `b` is encoded at its place from `pos` on.
pub open spec fn fields_at(bytes: Seq<u8>, pos: int, b: Bbox) -> bool {
    let at_time = pos + 20 + opt_u64_bytes(b.track_id).len();
    let at_class = at_time + opt_u64_bytes(b.timestamp).len();
    let at_conf = at_class + opt_u32_bytes(b.class_id).len();
    &&& holds_at(bytes, pos, spec_u32_to_le_bytes(b.left))
    &&& holds_at(bytes, pos + 4, spec_u32_to_le_bytes(b.top))
    &&& holds_at(bytes, pos + 8, spec_u32_to_le_bytes(b.width))
    &&& holds_at(bytes, pos + 12, spec_u32_to_le_bytes(b.height))
    &&& holds_at(bytes, pos + 16, spec_u32_to_le_bytes(b.area))
    &&& holds_at(bytes, pos + 20, opt_u64_bytes(b.track_id))
    &&& holds_at(bytes, at_time, opt_u64_bytes(b.timestamp))
    &&& holds_at(bytes, at_class, opt_u32_bytes(b.class_id))
    &&& holds_at(bytes, at_conf, opt_u32_bytes(b.confidence))
}

proof fn lemma_fields_at(bytes: Seq<u8>, pos: int, b: Bbox)
    ensures
        holds_at(bytes, pos, bbox_bytes(b)) <==> fields_at(bytes, pos, b),
        bbox_bytes(b).len() == 20 + opt_u64_bytes(b.track_id).len() + opt_u64_bytes(
            b.timestamp,
        ).len() + opt_u32_bytes(b.class_id).len() + opt_u32_bytes(b.confidence).len(),
{
    lemma_auto_spec_u32_to_from_le_bytes();
    let upto_left = spec_u32_to_le_bytes(b.left);
    let upto_top = upto_left + spec_u32_to_le_bytes(b.top);
    let upto_width = upto_top + spec_u32_to_le_bytes(b.width);
    let upto_height = upto_width + spec_u32_to_le_bytes(b.height);
    let upto_area = upto_height + spec_u32_to_le_bytes(b.area);
    let upto_track = upto_area + opt_u64_bytes(b.track_id);
    let upto_time = upto_track + opt_u64_bytes(b.timestamp);
    let upto_class = upto_time + opt_u32_bytes(b.class_id);
    lemma_holds_at_concat(bytes, pos, upto_class, opt_u32_bytes(b.confidence));
    lemma_holds_at_concat(bytes, pos, upto_time, opt_u32_bytes(b.class_id));
    lemma_holds_at_concat(bytes, pos, upto_track, opt_u64_bytes(b.timestamp));
    lemma_holds_at_concat(bytes, pos, upto_area, opt_u64_bytes(b.track_id));
    lemma_holds_at_concat(bytes, pos, upto_height, spec_u32_to_le_bytes(b.area));
    lemma_holds_at_concat(bytes, pos, upto_width, spec_u32_to_le_bytes(b.height));
    lemma_holds_at_concat(bytes, pos, upto_top, spec_u32_to_le_bytes(b.width));
    lemma_holds_at_concat(bytes, pos, upto_left, spec_u32_to_le_bytes(b.top));
}

/// Reads the box encoded at `pos`.
pub fn read_bbox(bytes: &[u8], pos: usize) -> (r: Option<(Bbox, usize)>)
    ensures
        r matches Option::Some((b, p)) ==> p == pos + bbox_bytes(b).len() && holds_at(
            bytes@,
            pos as int,
            bbox_bytes(b),
        ),
        forall|b: Bbox| #[trigger]
            holds_at(bytes@, pos as int, bbox_bytes(b)) ==> r == Option::Some(
                (b, (pos + bbox_bytes(b).len()) as usize),
            ),
{
    proof {
        lemma_auto_spec_u32_to_from_le_bytes();
        assert forall|b: Bbox| #[trigger] holds_at(bytes@, pos as int, bbox_bytes(b)) implies fields_at(
            bytes@,
            pos as int,
            b,
        ) by {
            lemma_fields_at(bytes@, pos as int, b);
        }
    }
    if pos > bytes.len() || bytes.len() - pos < 20 {
        return Option::None;
    }
    let left = match read_u32(bytes, pos) {
        Option::Some(v) => v,
        Option::None => return Option::None,
    };
    let top = match read_u32(bytes, pos + 4) {
        Option::Some(v) => v,
        Option::None => return Option::None,
    };
    let width = match read_u32(bytes, pos + 8) {
        Option::Some(v) => v,
        Option::None => return Option::None,
    };
    let height = match read_u32(bytes, pos + 12) {
        Option::Some(v) => v,
        Option::None => return Option::None,
    };
    let area = match read_u32(bytes, pos + 16) {
        Option::Some(v) => v,
        Option::None => return Option::None,
    };
    let (track_id, after_track) = match read_opt_u64(bytes, pos + 20) {
        Option::Some(x) => x,
        Option::None => return Option::None,
    };
    let (timestamp, after_time) = match read_opt_u64(bytes, after_track) {
        Option::Some(x) => x,
        Option::None => return Option::None,
    };
    let (class_id, after_class) = match read_opt_u32(bytes, after_time) {
        Option::Some(x) => x,
        Option::None => return Option::None,
    };
    let (confidence, after_conf) = match read_opt_u32(bytes, after_class) {
        Option::Some(x) => x,
        Option::None => return Option::None,
    };
    let b = Bbox { left, top, width, height, area, track_id, timestamp, class_id, confidence };
    proof {
        lemma_fields_at(bytes@, pos as int, b);
    }
    Option::Some((b, after_conf))
}

proof fn lemma_bboxes_bytes_len(s: Seq<Bbox>)
    ensures
        bboxes_bytes(s).len() >= 20 * s.len(),
    decreases s.len(),
{
    if s.len() > 0 {
        lemma_bboxes_bytes_len(s.drop_last());
        lemma_fields_at(Seq::empty(), 0, s.last());
    }
}

proof fn lemma_list_step(bytes: Seq<u8>, pos: int, s: Seq<Bbox>, i: int)
    requires
        holds_at(bytes, pos, list_bytes(s)),
        0 <= i < s.len(),
    ensures
        holds_at(
            bytes,
            pos + 8 + bboxes_bytes(s.take(i)).len(),
            bbox_bytes(s[i]),
        ),
{
    lemma_auto_spec_u64_to_from_le_bytes();
    let h = spec_u64_to_le_bytes(s.len() as u64);
    lemma_holds_at_concat(bytes, pos, h, bboxes_bytes(s));
    lemma_bboxes_bytes_prefix(s, i);
    lemma_holds_at_concat(bytes, pos + 8, bboxes_bytes(s.take(i)), bboxes_bytes(s.skip(i)));
    assert(s.skip(i) =~= seq![s[i]] + s.skip(i + 1));
    lemma_bboxes_bytes_cons(s[i], s.skip(i + 1));
    lemma_holds_at_concat(
        bytes,
        pos + 8 + bboxes_bytes(s.take(i)).len(),
        bbox_bytes(s[i]),
        bboxes_bytes(s.skip(i + 1)),
    );
}

/// Reads the list of boxes encoded at `pos`.
pub fn read_list(bytes: &[u8], pos: usize) -> (r: Option<(Vec<Bbox>, usize)>)
    ensures
        r matches Option::Some((v, p)) ==> p == pos + list_bytes(v@).len() && holds_at(
            bytes@,
            pos as int,
            list_bytes(v@),
        ),
        forall|s: Seq<Bbox>| #[trigger]
            holds_at(bytes@, pos as int, list_bytes(s)) ==> (r matches Option::Some((v, p)) && v@
                == s && p == pos + list_bytes(s).len()),
{
    proof {
        lemma_auto_spec_u64_to_from_le_bytes();
        assert forall|s: Seq<Bbox>| #[trigger]
            holds_at(bytes@, pos as int, list_bytes(s)) implies holds_at(
            bytes@,
            pos as int,
            spec_u64_to_le_bytes(s.len() as u64),
        ) by {
            lemma_holds_at_concat(
                bytes@,
                pos as int,
                spec_u64_to_le_bytes(s.len() as u64),
                bboxes_bytes(s),
            );
        }
    }
    let n = match read_u64(bytes, pos) {
        Option::Some(v) => v,
        Option::None => return Option::None,
    };
    proof {
        assert(bytes@.len() == bytes.len());
        assert forall|s: Seq<Bbox>| #[trigger]
            holds_at(bytes@, pos as int, list_bytes(s)) implies s.len() == n by {
            lemma_bboxes_bytes_len(s);
            assert(s.len() < 0x1_0000_0000_0000_0000);
        }
        assert(bboxes_bytes(Seq::<Bbox>::empty()) == Seq::<u8>::empty());
        assert(spec_u64_to_le_bytes(n) + Seq::<u8>::empty() =~= spec_u64_to_le_bytes(n));
    }
    let mut out: Vec<Bbox> = Vec::new();
    let mut cur: usize = pos + 8;
    let mut i: u64 = 0;
    while i < n
        invariant
            i <= n,
            out@.len() == i,
            cur == pos + 8 + bboxes_bytes(out@).len(),
            holds_at(bytes@, pos as int, spec_u64_to_le_bytes(n) + bboxes_bytes(out@)),
            forall|s: Seq<Bbox>| #[trigger]
                holds_at(bytes@, pos as int, list_bytes(s)) ==> s.len() == n && s.take(i as int)
                    == out@,
        decreases n - i,
    {
        proof {
            assert forall|s: Seq<Bbox>| #[trigger]
                holds_at(bytes@, pos as int, list_bytes(s)) implies holds_at(
                bytes@,
                cur as int,
                bbox_bytes(s[i as int]),
            ) by {
                lemma_list_step(bytes@, pos as int, s, i as int);
            }
        }
        let (b, next) = match read_bbox(bytes, cur) {
            Option::Some(x) => x,
            Option::None => return Option::None,
        };
        proof {
            lemma_auto_spec_u64_to_from_le_bytes();
            lemma_bboxes_bytes_push(out@, b);
            assert(spec_u64_to_le_bytes(n).len() == 8);
            assert((spec_u64_to_le_bytes(n) + bboxes_bytes(out@)).len() == 8 + bboxes_bytes(out@).len());
            lemma_holds_at_concat(
                bytes@,
                pos as int,
                spec_u64_to_le_bytes(n) + bboxes_bytes(out@),
                bbox_bytes(b),
            );
            assert(spec_u64_to_le_bytes(n) + bboxes_bytes(out@) + bbox_bytes(b) =~= spec_u64_to_le_bytes(
                n,
            ) + bboxes_bytes(out@.push(b)));
            assert forall|s: Seq<Bbox>| #[trigger]
                holds_at(bytes@, pos as int, list_bytes(s)) implies s.take(i + 1) == out@.push(b) by {
                assert(s.take(i + 1) =~= s.take(i as int).push(s[i as int]));
            }
        }
        out.push(b);
        cur = next;
        i = i + 1;
    }
    proof {
        lemma_auto_spec_u64_to_from_le_bytes();
        assert(spec_u64_to_le_bytes(n).len() == 8);
        assert forall|s: Seq<Bbox>| #[trigger]
            holds_at(bytes@, pos as int, list_bytes(s)) implies s == out@ by {
            assert(s.take(i as int) =~= s);
        }
    }
    Option::Some((out, cur))
}

/// A record on a stream: its length as four big-endian bytes, then the record.
pub open spec fn record_bytes(payload: Seq<u8>) -> Seq<u8> {
    let n = payload.len() as u32;
    seq![(n >> 24u32) as u8, (n >> 16u32) as u8, (n >> 8u32) as u8, n as u8] + payload
}

/// Prefixes `payload` with its length, as one record of a stream.
pub fn length_prefixed(payload: &Vec<u8>) -> (r: Vec<u8>)
    requires
        payload@.len() <= u32::MAX,
    ensures
        r@ == record_bytes(payload@),
{
    let n = payload.len() as u32;
    let mut r: Vec<u8> = Vec::new();
    r.push((n >> 24u32) as u8);
    r.push((n >> 16u32) as u8);
    r.push((n >> 8u32) as u8);
    r.push(n as u8);
    let mut i: usize = 0;
    while i < payload.len()
        invariant
            i <= payload@.len(),
            n == payload@.len(),
            r@ == seq![(n >> 24u32) as u8, (n >> 16u32) as u8, (n >> 8u32) as u8, n as u8]
                + payload@.take(i as int),
        decreases payload@.len() - i,
    {
        r.push(payload[i]);
        proof {
            assert(payload@.take(i + 1) =~= payload@.take(i as int).push(payload@[i as int]));
        }
        i += 1;
        assert(r@ =~= seq![(n >> 24u32) as u8, (n >> 16u32) as u8, (n >> 8u32) as u8, n as u8]
            + payload@.take(i as int));
    }
    assert(payload@.take(i as int) =~= payload@);
    r
}

impl Bbox {
    /// The encoding of a list of boxes.
    pub fn serialize_vec(bboxes: &Vec<Bbox>) -> (r: Vec<u8>)
        ensures
            r@ == list_bytes(bboxes@),
    {
        let mut out: Vec<u8> = Vec::new();
        write_list(&mut out, bboxes);
        assert(out@ =~= list_bytes(bboxes@));
        out
    }

    /// Decodes a list of boxes from the start of `serialized`; bytes after
    /// it are ignored.
    pub fn deserialize_vec(serialized: &[u8]) -> (r: Result<Vec<Bbox>, DecodeError>)
        ensures
            r matches Result::Ok(v) ==> holds_at(serialized@, 0, list_bytes(v@)),
            forall|s: Seq<Bbox>| #[trigger]
                holds_at(serialized@, 0, list_bytes(s)) ==> (r matches Result::Ok(v) && v@ == s),
            r is Err <==> !exists|s: Seq<Bbox>| #[trigger] holds_at(serialized@, 0, list_bytes(s)),
    {
        match read_list(serialized, 0) {
            Option::Some((v, _)) => Result::Ok(v),
            Option::None => Result::Err(DecodeError::Malformed),
        }
    }
}

impl Frame {
    /// The encoding of this frame.
    pub open spec fn encoding(self) -> Seq<u8> {
        frame_bytes(self.range_start, self.oldest, self.bboxes@)
    }

    pub fn ser(&self) -> (r: Vec<u8>)
        ensures
            r@ == self.encoding(),
    {
        let mut out: Vec<u8> = Vec::new();
        write_u64(&mut out, self.range_start);
        write_u64(&mut out, self.oldest);
        write_list(&mut out, &self.bboxes);
        assert(out@ =~= self.encoding());
        out
    }

    /// Decodes a frame from the start of `serialized`; bytes after it are
    /// ignored.
    pub fn de(serialized: &[u8]) -> (r: Result<Frame, DecodeError>)
        ensures
            r matches Result::Ok(f) ==> holds_at(serialized@, 0, f.encoding()),
            forall|rs: u64, o: u64, s: Seq<Bbox>| #[trigger]
                holds_at(serialized@, 0, frame_bytes(rs, o, s)) ==> (r matches Result::Ok(f)
                    && f.range_start == rs && f.oldest == o && f.bboxes@ == s),
            r is Err <==> !exists|rs: u64, o: u64, s: Seq<Bbox>| #[trigger]
                holds_at(serialized@, 0, frame_bytes(rs, o, s)),
    {
        proof {
            lemma_auto_spec_u64_to_from_le_bytes();
            assert forall|rs: u64, o: u64, s: Seq<Bbox>| #[trigger]
                holds_at(serialized@, 0, frame_bytes(rs, o, s)) implies holds_at(
                serialized@,
                0,
                spec_u64_to_le_bytes(rs),
            ) && holds_at(serialized@, 8, spec_u64_to_le_bytes(o)) && holds_at(
                serialized@,
                16,
                list_bytes(s),
            ) by {
                let a = spec_u64_to_le_bytes(rs);
                let b = spec_u64_to_le_bytes(o);
                lemma_holds_at_concat(serialized@, 0, a + b, list_bytes(s));
                lemma_holds_at_concat(serialized@, 0, a, b);
            }
        }
        let range_start = match read_u64(serialized, 0) {
            Option::Some(v) => v,
            Option::None => return Result::Err(DecodeError::Malformed),
        };
        let oldest = match read_u64(serialized, 8) {
            Option::Some(v) => v,
            Option::None => return Result::Err(DecodeError::Malformed),
        };
        let bboxes = match read_list(serialized, 16) {
            Option::Some((v, _)) => v,
            Option::None => return Result::Err(DecodeError::Malformed),
        };
        let f = Frame { range_start, oldest, bboxes };
        proof {
            let a = spec_u64_to_le_bytes(range_start);
            let b = spec_u64_to_le_bytes(oldest);
            lemma_holds_at_concat(serialized@, 0, a, b);
            lemma_holds_at_concat(serialized@, 0, a + b, list_bytes(f.bboxes@));
            assert(holds_at(serialized@, 0, frame_bytes(f.range_start, f.oldest, f.bboxes@)));
        }
        Result::Ok(f)
    }
}

/// A frame's encoding holds that frame from its first byte: by the
/// contracts of `Frame::ser` and `Frame::de`, decoding what `ser` wrote
/// gives back the same `range_start`, `oldest` and boxes.
pub proof fn lemma_frame_round_trip(f: Frame)
    ensures
        holds_at(f.encoding(), 0, frame_bytes(f.range_start, f.oldest, f.bboxes@)),
{
    assert(f.encoding().subrange(0, f.encoding().len() as int) =~= f.encoding());
}

/// A list's encoding holds that list from its first byte: decoding what
/// `Bbox::serialize_vec` wrote with `Bbox::deserialize_vec` gives back the
/// same boxes.
pub proof fn lemma_list_round_trip(s: Seq<Bbox>)
    ensures
        holds_at(list_bytes(s), 0, list_bytes(s)),
{
    assert(list_bytes(s).subrange(0, list_bytes(s).len() as int) =~= list_bytes(s));
}

} // verus!
