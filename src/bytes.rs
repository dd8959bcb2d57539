//! Little-endian integers over byte sequences.

use vstd::prelude::*;

verus! {

/// The 16-bit little-endian value stored at `i`.
pub open spec fn u16_at(b: Seq<u8>, i: int) -> u16 {
    (b[i] as int + b[i + 1] as int * 0x100) as u16
}

/// The 32-bit little-endian value stored at `i`.
pub open spec fn u32_at(b: Seq<u8>, i: int) -> u32 {
    (b[i] as int + b[i + 1] as int * 0x100 + b[i + 2] as int * 0x1_0000 + b[i + 3] as int
        * 0x100_0000) as u32
}

/// The 64-bit little-endian value stored at `i`.
pub open spec fn u64_at(b: Seq<u8>, i: int) -> u64 {
    (u32_at(b, i) as int + u32_at(b, i + 4) as int * 0x1_0000_0000) as u64
}

/// The signed 32-bit value stored at `i`.
pub open spec fn i32_at(b: Seq<u8>, i: int) -> i32 {
    u32_at(b, i) as i32
}

/// The two bytes that store `v`.
pub open spec fn le16(v: u16) -> Seq<u8> {
    seq![(v % 0x100) as u8, (v / 0x100) as u8]
}

/// The four bytes that store `v`.
pub open spec fn le32(v: u32) -> Seq<u8> {
    seq![
        (v % 0x100) as u8,
        (v / 0x100 % 0x100) as u8,
        (v / 0x1_0000 % 0x100) as u8,
        (v / 0x100_0000) as u8,
    ]
}

/// The eight bytes that store `v`.
pub open spec fn le64(v: u64) -> Seq<u8> {
    le32((v % 0x1_0000_0000) as u32) + le32((v / 0x1_0000_0000) as u32)
}

pub fn read_u16(b: &[u8], i: usize) -> (r: u16)
    requires
        i + 2 <= b@.len(),
    ensures
        r == u16_at(b@, i as int),
{
    b[i] as u16 + b[i + 1] as u16 * 0x100
}

pub fn read_u32(b: &[u8], i: usize) -> (r: u32)
    requires
        i + 4 <= b@.len(),
    ensures
        r == u32_at(b@, i as int),
{
    b[i] as u32 + b[i + 1] as u32 * 0x100 + b[i + 2] as u32 * 0x1_0000 + b[i + 3] as u32 * 0x100_0000
}

pub fn read_i32(b: &[u8], i: usize) -> (r: i32)
    requires
        i + 4 <= b@.len(),
    ensures
        r == i32_at(b@, i as int),
{
    read_u32(b, i) as i32
}

pub fn read_u64(b: &[u8], i: usize) -> (r: u64)
    requires
        i + 8 <= b@.len(),
    ensures
        r == u64_at(b@, i as int),
{
    let _n = b.len();
    read_u32(b, i) as u64 + read_u32(b, i + 4) as u64 * 0x1_0000_0000
}

pub fn push_u16(out: &mut Vec<u8>, v: u16)
    ensures
        final(out)@ == old(out)@ + le16(v),
{
    out.push((v % 0x100) as u8);
    out.push((v / 0x100) as u8);
    assert(final(out)@ =~= old(out)@ + le16(v));
}

pub fn push_u32(out: &mut Vec<u8>, v: u32)
    ensures
        final(out)@ == old(out)@ + le32(v),
{
    out.push((v % 0x100) as u8);
    out.push((v / 0x100 % 0x100) as u8);
    out.push((v / 0x1_0000 % 0x100) as u8);
    out.push((v / 0x100_0000) as u8);
    assert(final(out)@ =~= old(out)@ + le32(v));
}

pub fn push_u64(out: &mut Vec<u8>, v: u64)
    ensures
        final(out)@ == old(out)@ + le64(v),
{
    push_u32(out, (v % 0x1_0000_0000) as u32);
    push_u32(out, (v / 0x1_0000_0000) as u32);
    assert(final(out)@ =~= old(out)@ + le64(v));
}

pub fn push_bytes(out: &mut Vec<u8>, b: &[u8])
    ensures
        final(out)@ == old(out)@ + b@,
{
    let mut k: usize = 0;
    while k < b.len()
        invariant
            k <= b@.len(),
            out@ == old(out)@ + b@.subrange(0, k as int),
        decreases b@.len() - k,
    {
        out.push(b[k]);
        assert(out@ =~= old(out)@ + b@.subrange(0, k + 1));
        k = k + 1;
    }
    assert(b@.subrange(0, b@.len() as int) =~= b@);
}

/// Blocks of one size laid end to end: the total length, and where each
/// block sits.
pub proof fn lemma_flatten_blocks(bs: Seq<Seq<u8>>, size: int)
    requires
        size >= 0,
        forall|i: int| 0 <= i < bs.len() ==> (#[trigger] bs[i]).len() == size,
    ensures
        bs.flatten().len() == size * bs.len(),
        forall|i: int| 0 <= i < bs.len() ==> #[trigger] bs.flatten().subrange(size * i, size * i + size) == bs[i],
    decreases bs.len(),
{
    if bs.len() > 0 {
        let rest = bs.drop_first();
        lemma_flatten_blocks(rest, size);
        assert(bs.flatten() == bs[0] + rest.flatten());
        assert(size * bs.len() == size + size * rest.len()) by (nonlinear_arith)
            requires
                bs.len() == rest.len() + 1,
        ;
        assert forall|i: int| 0 <= i < bs.len() implies #[trigger] bs.flatten().subrange(size * i, size * i + size) == bs[i] by {
            if i == 0 {
                assert(bs.flatten().subrange(0, size) =~= bs[0]);
            } else {
                assert(size * i == size + size * (i - 1)) by (nonlinear_arith);
                assert(0 <= size * (i - 1)) by (nonlinear_arith)
                    requires
                        size >= 0,
                        i >= 1,
                ;
                assert(size * (i - 1) + size <= size * rest.len()) by (nonlinear_arith)
                    requires
                        size >= 0,
                        i - 1 < rest.len(),
                ;
                assert(rest[i - 1] == bs[i]);
                assert(bs.flatten().subrange(size * i, size * i + size) =~= rest.flatten().subrange(
                    size * (i - 1),
                    size * (i - 1) + size,
                ));
            }
        }
    }
}

/// Two stored bytes read back as the value they store.
pub proof fn lemma_le16(v: u16, b: Seq<u8>, i: int)
    requires
        0 <= i,
        i + 2 <= b.len(),
        b.subrange(i, i + 2) == le16(v),
    ensures
        u16_at(b, i) == v,
{
    assert(b[i] == le16(v)[0] && b[i + 1] == le16(v)[1]);
}

/// Four stored bytes read back as the value they store.
pub proof fn lemma_le32(v: u32, b: Seq<u8>, i: int)
    requires
        0 <= i,
        i + 4 <= b.len(),
        b.subrange(i, i + 4) == le32(v),
    ensures
        u32_at(b, i) == v,
{
    assert(b[i] == le32(v)[0] && b[i + 1] == le32(v)[1] && b[i + 2] == le32(v)[2] && b[i + 3] == le32(v)[3]);
}

/// Eight stored bytes read back as the value they store.
pub proof fn lemma_le64(v: u64, b: Seq<u8>, i: int)
    requires
        0 <= i,
        i + 8 <= b.len(),
        b.subrange(i, i + 8) == le64(v),
    ensures
        u64_at(b, i) == v,
{
    let lo = (v % 0x1_0000_0000) as u32;
    let hi = (v / 0x1_0000_0000) as u32;
    assert(b.subrange(i, i + 4) =~= le64(v).subrange(0, 4));
    assert(le64(v).subrange(0, 4) =~= le32(lo));
    assert(b.subrange(i + 4, i + 8) =~= le64(v).subrange(4, 8));
    assert(le64(v).subrange(4, 8) =~= le32(hi));
    lemma_le32(lo, b, i);
    lemma_le32(hi, b, i + 4);
}

/// A byte and a quotient recombine as the division by 256 splits them.
proof fn lemma_split_byte(a: int, q: int)
    requires
        0 <= a < 0x100,
        0 <= q,
    ensures
        (a + q * 0x100) % 0x100 == a,
        (a + q * 0x100) / 0x100 == q,
{
    assert((a + q * 0x100) % 0x100 == a && (a + q * 0x100) / 0x100 == q) by (nonlinear_arith)
        requires
            0 <= a < 0x100,
            0 <= q,
    ;
}

/// Reading two bytes and storing the value gives the same two bytes.
pub proof fn lemma_u16_bytes(b: Seq<u8>, i: int)
    requires
        0 <= i,
        i + 2 <= b.len(),
    ensures
        le16(u16_at(b, i)) == b.subrange(i, i + 2),
{
    lemma_split_byte(b[i] as int, b[i + 1] as int);
    assert(le16(u16_at(b, i)) =~= b.subrange(i, i + 2));
}

/// Reading four bytes and storing the value gives the same four bytes.
pub proof fn lemma_u32_bytes(b: Seq<u8>, i: int)
    requires
        0 <= i,
        i + 4 <= b.len(),
    ensures
        le32(u32_at(b, i)) == b.subrange(i, i + 4),
{
    let (x0, x1, x2, x3) = (b[i] as int, b[i + 1] as int, b[i + 2] as int, b[i + 3] as int);
    let q2 = x2 + x3 * 0x100;
    let q1 = x1 + q2 * 0x100;
    let v = x0 + q1 * 0x100;
    assert(v == x0 + x1 * 0x100 + x2 * 0x1_0000 + x3 * 0x100_0000);
    lemma_split_byte(x0, q1);
    lemma_split_byte(x1, q2);
    lemma_split_byte(x2, x3);
    assert(v / 0x1_0000 == q2) by {
        assert(v / 0x1_0000 == (v / 0x100) / 0x100) by {
            vstd::arithmetic::div_mod::lemma_div_denominator(v, 0x100, 0x100);
        }
    }
    assert(v / 0x100_0000 == x3) by {
        assert(v / 0x100_0000 == (v / 0x1_0000) / 0x100) by {
            vstd::arithmetic::div_mod::lemma_div_denominator(v, 0x1_0000, 0x100);
        }
    }
    assert(le32(u32_at(b, i)) =~= b.subrange(i, i + 4));
}

/// Reading eight bytes and storing the value gives the same eight bytes.
pub proof fn lemma_u64_bytes(b: Seq<u8>, i: int)
    requires
        0 <= i,
        i + 8 <= b.len(),
    ensures
        le64(u64_at(b, i)) == b.subrange(i, i + 8),
{
    let lo = u32_at(b, i) as int;
    let hi = u32_at(b, i + 4) as int;
    let v = lo + hi * 0x1_0000_0000;
    assert(v % 0x1_0000_0000 == lo && v / 0x1_0000_0000 == hi) by (nonlinear_arith)
        requires
            0 <= lo < 0x1_0000_0000,
            0 <= hi,
            v == lo + hi * 0x1_0000_0000,
    ;
    lemma_u32_bytes(b, i);
    lemma_u32_bytes(b, i + 4);
    assert(le64(u64_at(b, i)) =~= b.subrange(i, i + 8));
}

} // verus!
