//! The detector's text protocol: records end with a newline and hold six
//! comma-separated fields, `timestamp_ns,left,top,width,height,class_id`.
//! A read may end inside a record; its start waits for the next read.
use vstd::prelude::*;
use vstd::slice::slice_subrange;

verus! {

pub const NEWLINE: u8 = 10;

pub const COMMA: u8 = 44;

pub const PLUS: u8 = 43;

/// Why a detector record was refused.
#[derive(Clone, Copy, Debug, PartialEq, Eq, Structural)]
pub enum ProtocolError {
    /// The record does not have six fields, or its class is empty.
    FieldCount,
    /// The time stamp is not a decimal `u64` (an optional `+`, then digits).
    Timestamp,
    /// The class is not a decimal `i32` with an optional `+` (a negative
    /// class is refused).
    Class,
}

/// A detector record with its integer fields read; the four geometry
/// fields are left as text, to be read as floating-point numbers.
pub struct DnnRecord {
    pub timestamp: u64,
    pub left: Vec<u8>,
    pub top: Vec<u8>,
    pub width: Vec<u8>,
    pub height: Vec<u8>,
    pub class_id: u32,
}

pub open spec fn is_digit(c: u8) -> bool {
    48 <= c <= 57
}

/// The value of the decimal digits `s`.
pub open spec fn decimal(s: Seq<u8>) -> nat
    decreases s.len(),
{
    if s.len() == 0 {
        0
    } else {
        decimal(s.drop_last()) * 10 + (s.last() - 48) as nat
    }
}

/// `s` without one leading `+`, if it has one.
pub open spec fn unsigned_part(s: Seq<u8>) -> Seq<u8> {
    if s.len() > 0 && s[0] == PLUS {
        s.drop_first()
    } else {
        s
    }
}

/// `s` is a decimal numeral of at most `max`: an optional `+`, then one
/// or more digits.
pub open spec fn numeral_within(s: Seq<u8>, max: nat) -> bool {
    all_digits(unsigned_part(s)) && decimal(unsigned_part(s)) <= max
}

/// `s` is one or more decimal digits.
pub open spec fn all_digits(s: Seq<u8>) -> bool {
    s.len() > 0 && forall|i: int| 0 <= i < s.len() ==> is_digit(#[trigger] s[i])
}

/// Reads the digits `s` as a number of at most `max`: `None` unless `s` is
/// digits only, at least one, with a value at most `max`.
fn parse_digits(s: &[u8], max: u64) -> (r: Option<u64>)
    ensures
        r is Some <==> all_digits(s@) && decimal(s@) <= max,
        r matches Some(v) ==> v == decimal(s@),
{
    if s.len() == 0 {
        return None;
    }
    let mut v: u64 = 0;
    let mut i: usize = 0;
    while i < s.len()
        invariant
            i <= s@.len(),
            v == decimal(s@.take(i as int)),
            v <= max,
            forall|k: int| 0 <= k < i ==> is_digit(#[trigger] s@[k]),
        decreases s@.len() - i,
    {
        let c = s[i];
        proof {
            assert(s@.take(i + 1).drop_last() =~= s@.take(i as int));
        }
        if c < 48 || c > 57 {
            return None;
        }
        let d = (c - 48) as u64;
        if d > max || v > (max - d) / 10 {
            proof {
                if d <= max {
                    assert(v * 10 + d > max) by (nonlinear_arith)
                        requires
                            v > (max - d) / 10,
                            d <= max,
                    ;
                }
                assert(decimal(s@.take(i + 1)) == v * 10 + d);
                lemma_decimal_grows(s@, i as int + 1);
            }
            return None;
        }
        proof {
            assert(v * 10 + d <= max) by (nonlinear_arith)
                requires
                    v <= (max - d) / 10,
                    d <= max,
            ;
        }
        v = v * 10 + d;
        i += 1;
    }
    assert(s@.take(i as int) =~= s@);
    Some(v)
}

/// Reads a decimal numeral of at most `max`: an optional `+`, then one or
/// more digits; `None` for anything else or a larger value.
pub fn parse_decimal(s: &[u8], max: u64) -> (r: Option<u64>)
    ensures
        r is Some <==> numeral_within(s@, max as nat),
        r matches Some(v) ==> v == decimal(unsigned_part(s@)),
{
    if s.len() > 0 && s[0] == PLUS {
        let rest = slice_subrange(s, 1, s.len());
        assert(rest@ =~= s@.drop_first());
        parse_digits(rest, max)
    } else {
        parse_digits(s, max)
    }
}

/// A longer run of digits is worth at least as much as its prefix.
proof fn lemma_decimal_grows(s: Seq<u8>, n: int)
    requires
        0 <= n <= s.len(),
        forall|k: int| 0 <= k < n ==> is_digit(#[trigger] s[k]),
    ensures
        all_digits(s) ==> decimal(s) >= decimal(s.take(n)),
    decreases s.len() - n,
{
    if all_digits(s) && n < s.len() {
        lemma_decimal_grows(s, n + 1);
        assert(s.take(n + 1).drop_last() =~= s.take(n));
        assert(decimal(s.take(n + 1)) >= decimal(s.take(n)));
    } else if n == s.len() {
        assert(s.take(n) =~= s);
    }
}

/// The pieces of `s` between the separators `sep` (one more than there are
/// separators).
pub open spec fn split_on(s: Seq<u8>, sep: u8) -> Seq<Seq<u8>>
    decreases s.len(),
{
    if s.len() == 0 {
        seq![Seq::empty()]
    } else {
        let f = split_on(s.drop_last(), sep);
        if s.last() == sep {
            f.push(Seq::empty())
        } else {
            f.update(f.len() - 1, f.last().push(s.last()))
        }
    }
}

proof fn lemma_split_on_len(s: Seq<u8>, sep: u8)
    ensures
        split_on(s, sep).len() >= 1,
    decreases s.len(),
{
    if s.len() > 0 {
        lemma_split_on_len(s.drop_last(), sep);
    }
}

/// Splits `s` at each `sep`.
pub fn split_at_byte(s: &[u8], sep: u8) -> (r: Vec<Vec<u8>>)
    ensures
        r@.len() == split_on(s@, sep).len(),
        forall|k: int| 0 <= k < r@.len() ==> (#[trigger] r@[k])@ == split_on(s@, sep)[k],
{
    let mut out: Vec<Vec<u8>> = Vec::new();
    let mut cur: Vec<u8> = Vec::new();
    let mut i: usize = 0;
    while i < s.len()
        invariant
            i <= s@.len(),
            out@.len() + 1 == split_on(s@.take(i as int), sep).len(),
            forall|k: int| 0 <= k < out@.len() ==> (#[trigger] out@[k])@ == split_on(s@.take(i as int), sep)[k],
            cur@ == split_on(s@.take(i as int), sep).last(),
        decreases s@.len() - i,
    {
        let c = s[i];
        proof {
            assert(s@.take(i + 1).drop_last() =~= s@.take(i as int));
            lemma_split_on_len(s@.take(i as int), sep);
        }
        if c == sep {
            let done = cur;
            out.push(done);
            cur = Vec::new();
        } else {
            cur.push(c);
        }
        i += 1;
    }
    proof {
        assert(s@.take(i as int) =~= s@);
    }
    out.push(cur);
    out
}

/// Reads one record (without its newline).
pub fn parse_record(line: &[u8]) -> (r: Result<DnnRecord, ProtocolError>)
    ensures
        ({
            let f = split_on(line@, COMMA);
            match r {
                Ok(rec) => {
                    &&& f.len() == 6
                    &&& numeral_within(f[0], u64::MAX as nat)
                    &&& numeral_within(f[5], i32::MAX as nat)
                    &&& rec.timestamp == decimal(unsigned_part(f[0]))
                    &&& rec.class_id == decimal(unsigned_part(f[5]))
                    &&& rec.left@ == f[1]
                    &&& rec.top@ == f[2]
                    &&& rec.width@ == f[3]
                    &&& rec.height@ == f[4]
                },
                Err(ProtocolError::FieldCount) => f.len() != 6 || f[5].len() == 0,
                Err(ProtocolError::Timestamp) => f.len() == 6 && f[5].len() > 0 && !numeral_within(
                    f[0],
                    u64::MAX as nat,
                ),
                Err(ProtocolError::Class) => f.len() == 6 && f[5].len() > 0 && numeral_within(
                    f[0],
                    u64::MAX as nat,
                ) && !numeral_within(f[5], i32::MAX as nat),
            }
        }),
{
    let mut fields = split_at_byte(line, COMMA);
    if fields.len() != 6 || fields[5].len() == 0 {
        return Err(ProtocolError::FieldCount);
    }
    let timestamp = match parse_decimal(fields[0].as_slice(), u64::MAX) {
        Some(v) => v,
        None => return Err(ProtocolError::Timestamp),
    };
    let class_id = match parse_decimal(fields[5].as_slice(), 0x7fff_ffff) {
        Some(v) => v as u32,
        None => return Err(ProtocolError::Class),
    };
    let ghost f = fields@;
    let height = fields.remove(4);
    let width = fields.remove(3);
    let top = fields.remove(2);
    let left = fields.remove(1);
    proof {
        assert(height == f[4]);
        assert(width == f[3]);
        assert(top == f[2]);
        assert(left == f[1]);
    }
    Ok(DnnRecord { timestamp, left, top, width, height, class_id })
}

/// The position of the last newline in `s`, if any.
pub open spec fn last_newline(s: Seq<u8>) -> Option<int>
    decreases s.len(),
{
    if s.len() == 0 {
        None
    } else if s.last() == NEWLINE {
        Some(s.len() - 1)
    } else {
        last_newline(s.drop_last())
    }
}

/// Takes the complete records off the front of `buf`: everything up to its
/// last newline, split into lines; what follows that newline stays.
pub fn take_lines(buf: &mut Vec<u8>) -> (r: Vec<Vec<u8>>)
    ensures
        match last_newline(old(buf)@) {
            None => r@.len() == 0 && final(buf)@ == old(buf)@,
            Some(p) => {
                &&& final(buf)@ == old(buf)@.skip(p + 1)
                &&& r@.len() == split_on(old(buf)@.take(p), NEWLINE).len()
                &&& forall|k: int|
                    0 <= k < r@.len() ==> (#[trigger] r@[k])@ == split_on(old(buf)@.take(p), NEWLINE)[k]
            },
        },
{
    let mut n = buf.len();
    proof {
        assert(buf@.take(n as int) =~= buf@);
    }
    while n > 0 && buf[n - 1] != NEWLINE
        invariant
            n <= buf@.len(),
            last_newline(buf@) == last_newline(buf@.take(n as int)),
        decreases n,
    {
        proof {
            assert(buf@.take(n - 1) =~= buf@.take(n as int).drop_last());
        }
        n -= 1;
    }
    if n == 0 {
        proof {
            assert(buf@.take(0) =~= Seq::<u8>::empty());
        }
        return Vec::new();
    }
    proof {
        assert(buf@.take(n as int).last() == NEWLINE);
        assert(last_newline(buf@.take(n as int)) == Some(n - 1));
    }
    let ghost b0 = buf@;
    let rest = buf.split_off(n);
    buf.truncate(n - 1);
    proof {
        assert(buf@ =~= b0.take(n - 1));
    }
    let lines = split_at_byte(buf.as_slice(), NEWLINE);
    *buf = rest;
    proof {
        assert(buf@ =~= b0.skip(n as int));
    }
    lines
}

} // verus!
