//! The fixed binary layout of one probe event, shared by the kernel probe
//! and the collector: the timestamp, then the argument, each as eight
//! little-endian bytes.
use vstd::prelude::*;

verus! {

/// Bytes in one encoded record.
pub const RECORD_SIZE: usize = 16;

/// One instrumented call: when it happened and its first argument.
#[derive(Clone, Copy, Debug, PartialEq, Eq)]
pub struct EventRecord {
    pub timestamp_ns: u64,
    pub arg0: usize,
}

/// `256` raised to `n`.
pub open spec fn pow256(n: nat) -> nat
    decreases n,
{
    if n == 0 {
        1
    } else {
        256 * pow256((n - 1) as nat)
    }
}

/// The number that `b` encodes, least significant byte first.
pub open spec fn le_value(b: Seq<u8>) -> nat
    decreases b.len(),
{
    if b.len() == 0 {
        0
    } else {
        b[0] as nat + 256 * le_value(b.drop_first())
    }
}

/// The record that `b` encodes, if it has the size of one.
pub open spec fn decoded(b: Seq<u8>) -> Option<EventRecord> {
    if b.len() == RECORD_SIZE {
        Some(
            EventRecord {
                timestamp_ns: le_value(b.subrange(0, 8)) as u64,
                arg0: le_value(b.subrange(8, 16)) as usize,
            },
        )
    } else {
        None
    }
}

proof fn lemma_pow256_grows(a: nat, b: nat)
    requires
        a <= b,
    ensures
        pow256(a) <= pow256(b),
        pow256(a) >= 1,
    decreases b,
{
    if b > 0 {
        if a < b {
            lemma_pow256_grows(a, (b - 1) as nat);
        } else {
            lemma_pow256_grows((a - 1) as nat, (b - 1) as nat);
        }
    }
}

proof fn lemma_pow256_8()
    ensures
        pow256(8) == 0x1_0000_0000_0000_0000,
{
    reveal_with_fuel(pow256, 9);
}

/// Eight bytes encode a value that fits in `u64`.
proof fn lemma_le_value_bound(b: Seq<u8>)
    ensures
        le_value(b) < pow256(b.len()),
    decreases b.len(),
{
    if b.len() > 0 {
        let rest = le_value(b.drop_first());
        let p = pow256((b.len() - 1) as nat);
        lemma_le_value_bound(b.drop_first());
        let b0 = b[0] as nat;
        assert(b0 + 256 * rest < 256 * p) by (nonlinear_arith)
            requires
                b0 < 256,
                rest < p,
        ;
    }
}

/// Appending a byte adds it at the next power of 256.
proof fn lemma_le_value_push(b: Seq<u8>, c: u8)
    ensures
        le_value(b.push(c)) == le_value(b) + pow256(b.len()) * c,
    decreases b.len(),
{
    if b.len() > 0 {
        lemma_le_value_push(b.drop_first(), c);
        assert(b.push(c).drop_first() == b.drop_first().push(c));
        assert(b.push(c)[0] == b[0]);
        let p = pow256((b.len() - 1) as nat);
        let d = le_value(b.drop_first());
        let cc = c as nat;
        assert(256 * (d + p * cc) == 256 * d + (256 * p) * cc) by (nonlinear_arith);
        assert(pow256(b.len()) == 256 * p);
        assert(le_value(b.drop_first().push(c)) == d + p * cc);
        assert(le_value(b.push(c)) == b[0] as nat + 256 * le_value(b.push(c).drop_first()));
        assert(le_value(b) == b[0] as nat + 256 * d);
        assert(pow256(b.len()) * cc == (256 * p) * cc);
    } else {
        assert(b.push(c).drop_first() == Seq::<u8>::empty());
        assert(b.push(c)[0] == c);
        assert(le_value(b.push(c).drop_first()) == 0);
        assert(le_value(b.push(c)) == c as nat);
        assert(pow256(0) == 1);
        assert(pow256(b.len()) * c == c);
    }
}

/// Reads the eight bytes from `start` as a little-endian number.
fn read_u64_le(b: &[u8], start: usize) -> (r: u64)
    requires
        start <= 8,
        start + 8 <= b@.len(),
    ensures
        r == le_value(b@.subrange(start as int, start + 8)),
{
    let mut v: u64 = 0;
    let mut k: usize = 0;
    while k < 8
        invariant
            k <= 8,
            start <= 8,
            start + 8 <= b@.len(),
            v == le_value(b@.subrange(start + 8 - k, start + 8)),
            v < pow256(k as nat),
        decreases 8 - k,
    {
        let i = start + 7 - k;
        proof {
            let s = b@.subrange(i as int, start + 8);
            assert(s.drop_first() == b@.subrange(start + 8 - k, start + 8));
            lemma_pow256_grows((k + 1) as nat, 8);
            lemma_pow256_8();
            let bi = b[i as int] as nat;
            let vv = v as nat;
            let p = pow256(k as nat);
            assert(bi + 256 * vv < 256 * p) by (nonlinear_arith)
                requires
                    bi < 256,
                    vv < p,
            ;
        }
        v = b[i] as u64 + 256 * v;
        k = k + 1;
    }
    v
}

/// Appends `v` as eight little-endian bytes.
fn write_u64_le(out: &mut Vec<u8>, v: u64)
    ensures
        final(out)@.len() == old(out)@.len() + 8,
        final(out)@.subrange(0, old(out)@.len() as int) == old(out)@,
        le_value(final(out)@.subrange(old(out)@.len() as int, old(out)@.len() + 8int)) == v,
{
    let ghost start: int = old(out)@.len() as int;
    let mut x: u64 = v;
    let mut k: usize = 0;
    assert(out@.subrange(start, start) == Seq::<u8>::empty());
    assert(le_value(Seq::<u8>::empty()) == 0);
    assert(pow256(0) == 1);
    assert(x as nat * pow256(0) == v);
    while k < 8
        invariant
            k <= 8,
            start == old(out)@.len(),
            out@.len() == start + k,
            out@.subrange(0, start) == old(out)@,
            le_value(out@.subrange(start, start + k)) + pow256(k as nat) * x == v,
            k == 8 ==> x == 0,
            x as nat * pow256(k as nat) <= v,
        decreases 8 - k,
    {
        let ghost before = out@;
        let c = (x % 256) as u8;
        out.push(c);
        proof {
            assert(out@.subrange(start, start + k + 1) == before.subrange(start, start + k).push(c));
            lemma_le_value_push(before.subrange(start, start + k), c);
            assert(out@.subrange(0, start) == before.subrange(0, start));
            let p = pow256(k as nat);
            let xx = x as nat;
            assert(p * xx == p * (xx % 256) + (256 * p) * (xx / 256)) by (nonlinear_arith);
            assert((xx / 256) * (256 * p) <= xx * p) by (nonlinear_arith);
            if k + 1 == 8 {
                lemma_pow256_8();
                assert(xx / 256 == 0) by (nonlinear_arith)
                    requires
                        (xx / 256) * 0x1_0000_0000_0000_0000 <= v,
                        v < 0x1_0000_0000_0000_0000,
                ;
            }
        }
        x = x / 256;
        k = k + 1;
    }
}

impl EventRecord {
    /// The record in `bytes`; `None` unless it is exactly one record long.
    pub fn decode(bytes: &[u8]) -> (r: Option<EventRecord>)
        ensures
            r == decoded(bytes@),
    {
        if bytes.len() != RECORD_SIZE {
            return None;
        }
        let timestamp_ns = read_u64_le(bytes, 0);
        let arg = read_u64_le(bytes, 8);
        Some(EventRecord { timestamp_ns, arg0: arg as usize })
    }

    /// The bytes of this record, in the layout that `decode` reads.
    pub fn encode(&self) -> (r: Vec<u8>)
        ensures
            r@.len() == RECORD_SIZE,
            le_value(r@.subrange(0, 8)) == self.timestamp_ns,
            le_value(r@.subrange(8, 16)) == self.arg0,
    {
        let mut out: Vec<u8> = Vec::new();
        write_u64_le(&mut out, self.timestamp_ns);
        let ghost first = out@;
        assert(first.subrange(0, 8) == first);
        write_u64_le(&mut out, self.arg0 as u64);
        assert(out@.subrange(0, 8) == first);
        out
    }
}

/// Decoding an encoded record gives the record back.
pub proof fn lemma_record_round_trip(r: EventRecord, bytes: Seq<u8>)
    requires
        bytes.len() == RECORD_SIZE,
        le_value(bytes.subrange(0, 8)) == r.timestamp_ns,
        le_value(bytes.subrange(8, 16)) == r.arg0,
    ensures
        decoded(bytes) == Some(r),
{
}

} // verus!
