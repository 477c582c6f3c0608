//! The on-disk form of a scalable filter: a magic tag and version, then
//! little-endian fixed-width fields, the name as length-prefixed UTF-8, and
//! each stage with its counters and its bitmap packed eight bits to a byte.
use crate::bitmap::{bits_of, lemma_bitmap_limit, replace_bit, zeroed_bits, Bitmap, MAX_BITMAP_BITS};
use crate::filter::{lemma_total_bits_prefix, total_bits, BloomFilter, Fpp, ScalableBloomFilter, ScalableView, ScaleFactor, StageView};
use vstd::prelude::*;
use vstd::utf8::{decode_utf8, encode_utf8, valid_utf8};

verus! {

/// The first bytes of every encoded filter: `RBL` and format version 1.
pub open spec fn magic() -> Seq<u8> {
    seq![0x52u8, 0x42u8, 0x4cu8, 1u8]
}

pub open spec fn le64(x: u64) -> Seq<u8> {
    seq![
        x as u8,
        (x >> 8u64) as u8,
        (x >> 16u64) as u8,
        (x >> 24u64) as u8,
        (x >> 32u64) as u8,
        (x >> 40u64) as u8,
        (x >> 48u64) as u8,
        (x >> 56u64) as u8,
    ]
}

pub open spec fn le32(x: u32) -> Seq<u8> {
    seq![x as u8, (x >> 8u32) as u8, (x >> 16u32) as u8, (x >> 24u32) as u8]
}

pub open spec fn scale_byte(s: ScaleFactor) -> u8 {
    match s {
        ScaleFactor::SmallScaleSize => 2,
        ScaleFactor::LargeScaleSize => 4,
    }
}

/// Bit `i` of `bits` as 0 or 1; 0 past the end.
pub open spec fn bit_of(bits: Seq<bool>, i: int) -> u8 {
    if 0 <= i < bits.len() && bits[i] { 1u8 } else { 0u8 }
}

/// The first `t` bits of byte `j`: bit `8 * j + u` of `bits` at place `u`.
pub open spec fn pack_upto(bits: Seq<bool>, j: int, t: nat) -> u8
    decreases t,
{
    if t == 0 {
        0u8
    } else {
        pack_upto(bits, j, (t - 1) as nat) | (bit_of(bits, 8 * j + t - 1) << ((t - 1) as u8))
    }
}

/// Byte `j` of a packed bitmap: bits `8 * j` to `8 * j + 7`, lowest first.
#[verifier::opaque]
pub open spec fn packed_byte(bits: Seq<bool>, j: int) -> u8 {
    pack_upto(bits, j, 8)
}

/// How many bytes hold `n` packed bits.
pub open spec fn packed_len(n: nat) -> nat {
    (n + 7) / 8
}

/// A bitmap packed eight bits to a byte, the last byte padded with zeros.
pub open spec fn enc_bits(bits: Seq<bool>) -> Seq<u8> {
    Seq::new(packed_len(bits.len()), |j: int| packed_byte(bits, j))
}

/// A byte is the sum of its bits.
proof fn lemma_byte_rebuild(x: u8)
    ensures
        x == 0u8 | (((x >> 0u8) & 1u8) << 0u8) | (((x >> 1u8) & 1u8) << 1u8) | (((x >> 2u8) & 1u8) << 2u8) | (((x
            >> 3u8) & 1u8) << 3u8) | (((x >> 4u8) & 1u8) << 4u8) | (((x >> 5u8) & 1u8) << 5u8) | (((x >> 6u8) & 1u8)
            << 6u8) | (((x >> 7u8) & 1u8) << 7u8),
{
    assert(x == 0u8 | (((x >> 0u8) & 1u8) << 0u8) | (((x >> 1u8) & 1u8) << 1u8) | (((x >> 2u8) & 1u8) << 2u8) | (((x
        >> 3u8) & 1u8) << 3u8) | (((x >> 4u8) & 1u8) << 4u8) | (((x >> 5u8) & 1u8) << 5u8) | (((x >> 6u8) & 1u8)
        << 6u8) | (((x >> 7u8) & 1u8) << 7u8)) by (bit_vector);
}

/// The bits of a byte built from eight 0-or-1 values are those values.
proof fn lemma_byte_bits(b0: u8, b1: u8, b2: u8, b3: u8, b4: u8, b5: u8, b6: u8, b7: u8, x: u8)
    requires
        b0 <= 1 && b1 <= 1 && b2 <= 1 && b3 <= 1 && b4 <= 1 && b5 <= 1 && b6 <= 1 && b7 <= 1,
        x == 0u8 | (b0 << 0u8) | (b1 << 1u8) | (b2 << 2u8) | (b3 << 3u8) | (b4 << 4u8) | (b5 << 5u8) | (b6 << 6u8) | (
        b7 << 7u8),
    ensures
        (x >> 0u8) & 1u8 == b0 && (x >> 1u8) & 1u8 == b1 && (x >> 2u8) & 1u8 == b2 && (x >> 3u8) & 1u8 == b3,
        (x >> 4u8) & 1u8 == b4 && (x >> 5u8) & 1u8 == b5 && (x >> 6u8) & 1u8 == b6 && (x >> 7u8) & 1u8 == b7,
{
    assert((x >> 0u8) & 1u8 == b0 && (x >> 1u8) & 1u8 == b1 && (x >> 2u8) & 1u8 == b2 && (x >> 3u8) & 1u8 == b3 && (x
        >> 4u8) & 1u8 == b4 && (x >> 5u8) & 1u8 == b5 && (x >> 6u8) & 1u8 == b6 && (x >> 7u8) & 1u8 == b7)
        by (bit_vector)
        requires
            b0 <= 1 && b1 <= 1 && b2 <= 1 && b3 <= 1 && b4 <= 1 && b5 <= 1 && b6 <= 1 && b7 <= 1,
            x == 0u8 | (b0 << 0u8) | (b1 << 1u8) | (b2 << 2u8) | (b3 << 3u8) | (b4 << 4u8) | (b5 << 5u8) | (b6 << 6u8)
                | (b7 << 7u8),
    ;
}

/// A packed byte written out bit by bit.
proof fn lemma_packed_byte_unfold(bits: Seq<bool>, j: int)
    ensures
        packed_byte(bits, j) == 0u8 | (bit_of(bits, 8 * j) << 0u8) | (bit_of(bits, 8 * j + 1) << 1u8) | (bit_of(
            bits,
            8 * j + 2,
        ) << 2u8) | (bit_of(bits, 8 * j + 3) << 3u8) | (bit_of(bits, 8 * j + 4) << 4u8) | (bit_of(bits, 8 * j + 5)
            << 5u8) | (bit_of(bits, 8 * j + 6) << 6u8) | (bit_of(bits, 8 * j + 7) << 7u8),
{
    reveal(packed_byte);
    reveal_with_fuel(pack_upto, 9);
}

/// Bit `t` of packed byte `j` is bit `8 * j + t` of the bitmap.
proof fn lemma_packed_bits(bits: Seq<bool>, j: int)
    ensures
        forall|t: u8| t < 8 ==> (#[trigger] (packed_byte(bits, j) >> t) & 1u8) == bit_of(bits, 8 * j + t),
{
    lemma_packed_byte_unfold(bits, j);
    lemma_byte_bits(
        bit_of(bits, 8 * j),
        bit_of(bits, 8 * j + 1),
        bit_of(bits, 8 * j + 2),
        bit_of(bits, 8 * j + 3),
        bit_of(bits, 8 * j + 4),
        bit_of(bits, 8 * j + 5),
        bit_of(bits, 8 * j + 6),
        bit_of(bits, 8 * j + 7),
        packed_byte(bits, j),
    );
    assert forall|t: u8| t < 8 implies (#[trigger] (packed_byte(bits, j) >> t) & 1u8) == bit_of(bits, 8 * j + t) by {
        if t == 0 {} else if t == 1 {} else if t == 2 {} else if t == 3 {} else if t == 4 {} else if t == 5 {}
        else if t == 6 {} else {}
    }
}

/// A byte whose bits are bits `8 * j` to `8 * j + 7` of the bitmap is packed byte `j`.
proof fn lemma_packed_from_bits(bits: Seq<bool>, j: int, x: u8)
    requires
        forall|t: u8| t < 8 ==> (#[trigger] (x >> t) & 1u8) == bit_of(bits, 8 * j + t),
    ensures
        packed_byte(bits, j) == x,
{
    lemma_packed_byte_unfold(bits, j);
    lemma_byte_rebuild(x);
    assert((x >> 0u8) & 1u8 == bit_of(bits, 8 * j + 0));
    assert((x >> 1u8) & 1u8 == bit_of(bits, 8 * j + 1));
    assert((x >> 2u8) & 1u8 == bit_of(bits, 8 * j + 2));
    assert((x >> 3u8) & 1u8 == bit_of(bits, 8 * j + 3));
    assert((x >> 4u8) & 1u8 == bit_of(bits, 8 * j + 4));
    assert((x >> 5u8) & 1u8 == bit_of(bits, 8 * j + 5));
    assert((x >> 6u8) & 1u8 == bit_of(bits, 8 * j + 6));
    assert((x >> 7u8) & 1u8 == bit_of(bits, 8 * j + 7));
}

pub open spec fn enc_stage(st: StageView) -> Seq<u8> {
    le64(st.bits.len() as u64) + le64(st.size as u64) + le32(st.hash_count as u32) + le64(st.hits as u64) + le64(
        st.miss as u64,
    ) + enc_bits(st.bits)
}

pub open spec fn enc_stages(stages: Seq<StageView>) -> Seq<u8>
    decreases stages.len(),
{
    if stages.len() == 0 { Seq::empty() } else { enc_stages(stages.drop_last()) + enc_stage(stages.last()) }
}

/// The magic tag and the length-prefixed UTF-8 name.
pub open spec fn enc_head(name: Seq<char>) -> Seq<u8> {
    let n = encode_utf8(name);
    magic() + le64(n.len() as u64) + n
}

/// The fixed-width fields between the name and the stages: 45 bytes.
pub open spec fn enc_fields(v: ScalableView) -> Seq<u8> {
    le64(v.initial_capacity as u64) + le64(v.fpp.mantissa) + le32(v.fpp.scale) + seq![scale_byte(v.scale_factor)] + le64(
        v.creation_time as u64,
    ) + le64(v.last_access_time as u64) + le64(v.stages.len() as u64)
}

/// The encoding of a filter.
pub open spec fn enc_filter(v: ScalableView) -> Seq<u8> {
    enc_head(v.name) + enc_fields(v) + enc_stages(v.stages)
}

/// A stage whose fields fit the stored form.
pub open spec fn stage_storable(st: StageView) -> bool {
    &&& st.bits.len() <= MAX_BITMAP_BITS
    &&& st.size <= st.bits.len()
    &&& st.hash_count <= u32::MAX
    &&& st.hits <= u64::MAX
    &&& st.miss <= u64::MAX
}

/// A filter whose fields fit the stored form.
pub open spec fn storable(v: ScalableView) -> bool {
    &&& v.initial_capacity <= usize::MAX
    &&& i64::MIN <= v.creation_time <= i64::MAX
    &&& i64::MIN <= v.last_access_time <= i64::MAX
    &&& v.stages.len() <= u64::MAX
    &&& encode_utf8(v.name).len() <= usize::MAX
    &&& forall|j: int| 0 <= j < v.stages.len() ==> stage_storable(#[trigger] v.stages[j])
    &&& total_bits(v.stages) <= usize::MAX
}

proof fn lemma_le64_injective(x: u64, y: u64)
    requires
        le64(x) == le64(y),
    ensures
        x == y,
{
    assert(le64(x)[0] == le64(y)[0] && le64(x)[1] == le64(y)[1] && le64(x)[2] == le64(y)[2] && le64(x)[3] == le64(y)[3]);
    assert(le64(x)[4] == le64(y)[4] && le64(x)[5] == le64(y)[5] && le64(x)[6] == le64(y)[6] && le64(x)[7] == le64(y)[7]);
    assert(x == y) by (bit_vector)
        requires
            x as u8 == y as u8,
            (x >> 8u64) as u8 == (y >> 8u64) as u8,
            (x >> 16u64) as u8 == (y >> 16u64) as u8,
            (x >> 24u64) as u8 == (y >> 24u64) as u8,
            (x >> 32u64) as u8 == (y >> 32u64) as u8,
            (x >> 40u64) as u8 == (y >> 40u64) as u8,
            (x >> 48u64) as u8 == (y >> 48u64) as u8,
            (x >> 56u64) as u8 == (y >> 56u64) as u8,
    ;
}

proof fn lemma_le32_injective(x: u32, y: u32)
    requires
        le32(x) == le32(y),
    ensures
        x == y,
{
    assert(le32(x)[0] == le32(y)[0] && le32(x)[1] == le32(y)[1] && le32(x)[2] == le32(y)[2] && le32(x)[3] == le32(y)[3]);
    assert(x == y) by (bit_vector)
        requires
            x as u8 == y as u8,
            (x >> 8u32) as u8 == (y >> 8u32) as u8,
            (x >> 16u32) as u8 == (y >> 16u32) as u8,
            (x >> 24u32) as u8 == (y >> 24u32) as u8,
    ;
}

/// The fields of a stored stage, at their offsets.
proof fn lemma_enc_stage_parts(st: StageView)
    ensures
        enc_stage(st).len() == 36 + packed_len(st.bits.len()),
        enc_stage(st).subrange(0, 8) == le64(st.bits.len() as u64),
        enc_stage(st).subrange(8, 16) == le64(st.size as u64),
        enc_stage(st).subrange(16, 20) == le32(st.hash_count as u32),
        enc_stage(st).subrange(20, 28) == le64(st.hits as u64),
        enc_stage(st).subrange(28, 36) == le64(st.miss as u64),
        enc_stage(st).subrange(36, 36 + packed_len(st.bits.len()) as int) == enc_bits(st.bits),
{
    let e = enc_stage(st);
    assert(e.subrange(0, 8) =~= le64(st.bits.len() as u64));
    assert(e.subrange(8, 16) =~= le64(st.size as u64));
    assert(e.subrange(16, 20) =~= le32(st.hash_count as u32));
    assert(e.subrange(20, 28) =~= le64(st.hits as u64));
    assert(e.subrange(28, 36) =~= le64(st.miss as u64));
    assert(e.subrange(36, 36 + packed_len(st.bits.len()) as int) =~= enc_bits(st.bits));
}

/// Stored stages concatenate.
proof fn lemma_enc_stages_concat(a: Seq<StageView>, b: Seq<StageView>)
    ensures
        enc_stages(a + b) == enc_stages(a) + enc_stages(b),
    decreases b.len(),
{
    if b.len() == 0 {
        assert(a + b =~= a);
        assert(enc_stages(a) + enc_stages(b) =~= enc_stages(a));
    } else {
        lemma_enc_stages_concat(a, b.drop_last());
        assert((a + b).drop_last() =~= a + b.drop_last());
        assert(enc_stages(a) + enc_stages(b.drop_last()) + enc_stage(b.last()) =~= enc_stages(a) + enc_stages(b));
    }
}

fn put_u64(out: &mut Vec<u8>, x: u64)
    ensures
        final(out)@ == old(out)@ + le64(x),
{
    out.push(x as u8);
    out.push((x >> 8u64) as u8);
    out.push((x >> 16u64) as u8);
    out.push((x >> 24u64) as u8);
    out.push((x >> 32u64) as u8);
    out.push((x >> 40u64) as u8);
    out.push((x >> 48u64) as u8);
    out.push((x >> 56u64) as u8);
    assert(out@ =~= old(out)@ + le64(x));
}

fn put_u32(out: &mut Vec<u8>, x: u32)
    ensures
        final(out)@ == old(out)@ + le32(x),
{
    out.push(x as u8);
    out.push((x >> 8u32) as u8);
    out.push((x >> 16u32) as u8);
    out.push((x >> 24u32) as u8);
    assert(out@ =~= old(out)@ + le32(x));
}

/// Reads a little-endian `u64` at `pos`.
fn get_u64(b: &[u8], pos: usize) -> (r: Option<u64>)
    ensures
        r is Some <==> pos + 8 <= b@.len(),
        r matches Some(x) ==> b@.subrange(pos as int, pos + 8) == le64(x),
{
    if b.len() < 8 || pos > b.len() - 8 {
        return None;
    }
    let b0 = b[pos] as u64;
    let b1 = b[pos + 1] as u64;
    let b2 = b[pos + 2] as u64;
    let b3 = b[pos + 3] as u64;
    let b4 = b[pos + 4] as u64;
    let b5 = b[pos + 5] as u64;
    let b6 = b[pos + 6] as u64;
    let b7 = b[pos + 7] as u64;
    let x = b0 | (b1 << 8u64) | (b2 << 16u64) | (b3 << 24u64) | (b4 << 32u64) | (b5 << 40u64) | (b6 << 48u64) | (b7
        << 56u64);
    proof {
        assert(b0 < 256 && b1 < 256 && b2 < 256 && b3 < 256 && b4 < 256 && b5 < 256 && b6 < 256 && b7 < 256);
        assert(
            x as u8 == b0 as u8 && (x >> 8u64) as u8 == b1 as u8 && (x >> 16u64) as u8 == b2 as u8 && (x >> 24u64) as u8
                == b3 as u8 && (x >> 32u64) as u8 == b4 as u8 && (x >> 40u64) as u8 == b5 as u8 && (x >> 48u64) as u8
                == b6 as u8 && (x >> 56u64) as u8 == b7 as u8
        ) by (bit_vector)
            requires
                b0 < 256 && b1 < 256 && b2 < 256 && b3 < 256 && b4 < 256 && b5 < 256 && b6 < 256 && b7 < 256,
                x == b0 | (b1 << 8u64) | (b2 << 16u64) | (b3 << 24u64) | (b4 << 32u64) | (b5 << 40u64) | (b6 << 48u64)
                    | (b7 << 56u64),
        ;
        assert(b@.subrange(pos as int, pos + 8) =~= le64(x));
    }
    Some(x)
}

/// Reads a little-endian `u32` at `pos`.
fn get_u32(b: &[u8], pos: usize) -> (r: Option<u32>)
    ensures
        r is Some <==> pos + 4 <= b@.len(),
        r matches Some(x) ==> b@.subrange(pos as int, pos + 4) == le32(x),
{
    if b.len() < 4 || pos > b.len() - 4 {
        return None;
    }
    let b0 = b[pos] as u32;
    let b1 = b[pos + 1] as u32;
    let b2 = b[pos + 2] as u32;
    let b3 = b[pos + 3] as u32;
    let x = b0 | (b1 << 8u32) | (b2 << 16u32) | (b3 << 24u32);
    proof {
        assert(b0 < 256 && b1 < 256 && b2 < 256 && b3 < 256);
        assert(x as u8 == b0 as u8 && (x >> 8u32) as u8 == b1 as u8 && (x >> 16u32) as u8 == b2 as u8 && (x
            >> 24u32) as u8 == b3 as u8) by (bit_vector)
            requires
                b0 < 256 && b1 < 256 && b2 < 256 && b3 < 256,
                x == b0 | (b1 << 8u32) | (b2 << 16u32) | (b3 << 24u32),
        ;
        assert(b@.subrange(pos as int, pos + 4) =~= le32(x));
    }
    Some(x)
}


/// Packed byte `j` of a stage's bitmap.
fn pack_byte(f: &BloomFilter, j: usize) -> (r: u8)
    requires
        f.wf(),
        j < packed_len(f@.bits.len()),
    ensures
        r == packed_byte(f@.bits, j as int),
{
    let m = f.capacity();
    proof { f.lemma_bounds(); }
    assert(8 * j + 8 <= m + 8) by (nonlinear_arith)
        requires
            j < (m + 7) / 8,
    ;
    let mut x: u8 = 0;
    let mut t: u8 = 0;
    while t < 8
        invariant
            f.wf(),
            m == f@.bits.len(),
            m <= MAX_BITMAP_BITS,
            8 * j + 8 <= m + 8,
            t <= 8,
            x == pack_upto(f@.bits, j as int, t as nat),
        decreases 8 - t,
    {
        let i = 8 * j + t as usize;
        if i < m && f.bit(i) {
            x = x | (1u8 << t);
        } else {
            assert(x | (0u8 << t) == x) by (bit_vector);
        }
        t = t + 1;
    }
    proof { reveal(packed_byte); }
    x
}

/// Sets bits `8 * j` to `8 * j + 7` of a zeroed stretch of `bm` from `x`,
/// those below `m`; fails, having set some of them, when `x` has a bit set
/// at or past `m`.
fn unpack_byte(bm: &mut Bitmap, m: usize, j: usize, x: u8) -> (ok: bool)
    requires
        bits_of(*old(bm)).len() == m,
        m <= MAX_BITMAP_BITS,
        8 * j < m,
        forall|i: int| 8 * j <= i < m ==> !#[trigger] bits_of(*old(bm))[i],
    ensures
        bits_of(*final(bm)).len() == m,
        forall|i: int| 0 <= i < m && !(8 * j <= i < 8 * j + 8) ==> #[trigger] bits_of(*final(bm))[i] == bits_of(*old(bm))[i],
        ok ==> forall|t: u8| t < 8 ==> #[trigger] bit_of(bits_of(*final(bm)), 8 * j + t) == (x >> t) & 1u8,
        ok <==> forall|t: u8| t < 8 && 8 * j + t >= m ==> #[trigger] ((x >> t) & 1u8) == 0u8,
{
    let mut t: u8 = 0;
    while t < 8
        invariant
            bits_of(*bm).len() == m,
            m <= MAX_BITMAP_BITS,
            8 * j < m,
            t <= 8,
            forall|i: int| 0 <= i < m && !(8 * j <= i < 8 * j + t) ==> #[trigger] bits_of(*bm)[i] == bits_of(*old(bm))[i],
            forall|i: int| 8 * j <= i < m ==> !#[trigger] bits_of(*old(bm))[i],
            forall|u: u8| u < t ==> #[trigger] bit_of(bits_of(*bm), 8 * j + u) == (x >> u) & 1u8,
            forall|u: u8| u < t && 8 * j + u >= m ==> #[trigger] ((x >> u) & 1u8) == 0u8,
        decreases 8 - t,
    {
        let v = (x >> t) & 1u8;
        assert(v <= 1) by (bit_vector)
            requires
                v == (x >> t) & 1u8,
        ;
        let i = 8 * j + t as usize;
        let ghost before = bits_of(*bm);
        if i < m {
            if v == 1u8 {
                replace_bit(bm, i, true);
            }
            proof {
                assert forall|u: u8| u < t + 1 implies #[trigger] bit_of(bits_of(*bm), 8 * j + u) == (x >> u) & 1u8 by {
                    if u < t {
                        assert(bit_of(before, 8 * j + u) == (x >> u) & 1u8);
                    }
                }
            }
        } else if v == 1u8 {
            return false;
        }
        t = t + 1;
    }
    true
}

fn put_stage(out: &mut Vec<u8>, f: &BloomFilter)
    requires
        f.wf(),
    ensures
        final(out)@ == old(out)@ + enc_stage(f@),
{
    let m = f.capacity();
    put_u64(out, m as u64);
    put_u64(out, f.size() as u64);
    put_u32(out, f.hash_count());
    put_u64(out, f.hits());
    put_u64(out, f.miss());
    let ghost head = out@;
    proof {
        f.lemma_bounds();
        lemma_bitmap_limit();
    }
    let nb = (m + 7) / 8;
    let mut j: usize = 0;
    while j < nb
        invariant
            f.wf(),
            m == f@.bits.len(),
            nb == packed_len(m as nat),
            j <= nb,
            out@ == head + enc_bits(f@.bits).subrange(0, j as int),
        decreases nb - j,
    {
        let x = pack_byte(f, j);
        out.push(x);
        proof {
            assert(enc_bits(f@.bits).subrange(0, j + 1) =~= enc_bits(f@.bits).subrange(0, j as int).push(x));
        }
        j = j + 1;
    }
    proof {
        assert(enc_bits(f@.bits).subrange(0, nb as int) =~= enc_bits(f@.bits));
        assert(out@ =~= old(out)@ + enc_stage(f@));
    }
}

/// The bytes that store `f`; a well-formed filter is storable, so that
/// `decode` gives it back.
#[verifier::spinoff_prover]
pub fn encode(f: &ScalableBloomFilter) -> (r: Vec<u8>)
    requires
        f.wf(),
    ensures
        r@ == enc_filter(f@),
        storable(f@),
{
    proof { f.lemma_bounds(); }
    let mut out: Vec<u8> = Vec::new();
    out.push(0x52u8);
    out.push(0x42u8);
    out.push(0x4cu8);
    out.push(1u8);
    let name = f.name().as_str().as_bytes();
    put_u64(&mut out, name.len() as u64);
    let ghost head = out@;
    let mut i: usize = 0;
    while i < name.len()
        invariant
            i <= name@.len(),
            out@ == head + name@.subrange(0, i as int),
        decreases name@.len() - i,
    {
        out.push(name[i]);
        proof {
            assert(name@.subrange(0, i + 1) =~= name@.subrange(0, i as int).push(name@[i as int]));
        }
        i = i + 1;
    }
    proof {
        assert(name@.subrange(0, i as int) =~= name@);
    }
    put_u64(&mut out, f.initial_capacity() as u64);
    let fpp = f.fpp();
    put_u64(&mut out, fpp.mantissa);
    put_u32(&mut out, fpp.scale);
    out.push(
        match f.scale_factor() {
            ScaleFactor::SmallScaleSize => 2u8,
            ScaleFactor::LargeScaleSize => 4u8,
        },
    );
    put_u64(&mut out, f.creation_time() as u64);
    put_u64(&mut out, f.last_access_time() as u64);
    let n = f.filter_count();
    put_u64(&mut out, n as u64);
    let ghost head2 = out@;
    let mut j: usize = 0;
    while j < n
        invariant
            f.wf(),
            n == f@.stages.len(),
            j <= n,
            out@ == head2 + enc_stages(f@.stages.subrange(0, j as int)),
        decreases n - j,
    {
        proof {
            assert(f@.stages.subrange(0, j + 1).drop_last() =~= f@.stages.subrange(0, j as int));
        }
        put_stage(&mut out, f.stage(j));
        j = j + 1;
    }
    proof {
        assert(f@.stages.subrange(0, n as int) =~= f@.stages);
        assert(out@ =~= enc_filter(f@));
        assert(name@.len() <= usize::MAX);
    }
    out
}


/// Relies on `String::from_utf8`: it succeeds exactly on valid UTF-8, and
/// the string holds the characters that the bytes encode.
#[verifier::external_body]
fn string_from_utf8(b: Vec<u8>) -> (r: Option<String>)
    ensures
        r is Some <==> valid_utf8(b@),
        r matches Some(s) ==> s@ == decode_utf8(b@),
{
    String::from_utf8(b).ok()
}

proof fn lemma_extend(b: Seq<u8>, pos: int, len: int)
    requires
        0 <= pos,
        0 <= len,
        pos + len <= b.len(),
    ensures
        b.subrange(0, pos + len) == b.subrange(0, pos) + b.subrange(pos, pos + len),
{
    assert(b.subrange(0, pos + len) =~= b.subrange(0, pos) + b.subrange(pos, pos + len));
}

/// Whether the bytes of `b` at `pos` store the stage `st`.
pub open spec fn stage_at(b: Seq<u8>, pos: int, st: StageView) -> bool {
    &&& stage_storable(st)
    &&& 0 <= pos
    &&& pos + 36 + packed_len(st.bits.len()) <= b.len()
    &&& b.subrange(pos, pos + 36 + packed_len(st.bits.len())) == enc_stage(st)
}

proof fn lemma_stage_at(b: Seq<u8>, pos: int, st: StageView)
    requires
        stage_at(b, pos, st),
    ensures
        b.subrange(pos, pos + 8) == le64(st.bits.len() as u64),
        b.subrange(pos + 8, pos + 16) == le64(st.size as u64),
        b.subrange(pos + 16, pos + 20) == le32(st.hash_count as u32),
        b.subrange(pos + 20, pos + 28) == le64(st.hits as u64),
        b.subrange(pos + 28, pos + 36) == le64(st.miss as u64),
        forall|j: int| 0 <= j < packed_len(st.bits.len()) ==> #[trigger] b[pos + 36 + j] == packed_byte(st.bits, j),
{
    lemma_enc_stage_parts(st);
    let e = b.subrange(pos, pos + 36 + packed_len(st.bits.len()));
    assert(b.subrange(pos, pos + 8) =~= e.subrange(0, 8));
    assert(b.subrange(pos + 8, pos + 16) =~= e.subrange(8, 16));
    assert(b.subrange(pos + 16, pos + 20) =~= e.subrange(16, 20));
    assert(b.subrange(pos + 20, pos + 28) =~= e.subrange(20, 28));
    assert(b.subrange(pos + 28, pos + 36) =~= e.subrange(28, 36));
    assert forall|j: int| 0 <= j < packed_len(st.bits.len()) implies #[trigger] b[pos + 36 + j] == packed_byte(st.bits, j) by {
        assert(b[pos + 36 + j] == e[36 + j]);
        assert(e.subrange(36, 36 + packed_len(st.bits.len()) as int)[j] == e[36 + j]);
    }
}

/// Bit `i` of a bitmap sits at place `i % 8` of byte `i / 8`.
proof fn lemma_bit_place(bits: Seq<bool>, x: u8, i: int)
    requires
        0 <= i,
        forall|t: u8| t < 8 ==> #[trigger] bit_of(bits, 8 * (i / 8) + t) == (x >> t) & 1u8,
    ensures
        bit_of(bits, i) == (x >> ((i % 8) as u8)) & 1u8,
{
    let t = (i % 8) as u8;
    assert(8 * (i / 8) + t == i);
    assert(bit_of(bits, 8 * (i / 8) + t) == (x >> t) & 1u8);
}

/// Reads one stage at `pos`; returns it and the position after it.
#[verifier::spinoff_prover]
fn get_stage(b: &[u8], pos: usize) -> (r: Option<(BloomFilter, usize)>)
    requires
        pos <= b@.len(),
    ensures
        r matches Some((f, next)) ==> f.wf() && pos <= next <= b@.len() && b@.subrange(pos as int, next as int)
            == enc_stage(f@),
        forall|st: StageView| #[trigger] stage_at(b@, pos as int, st) ==> (r matches Some((f, next)) && f@ == st && next
            == pos + 36 + packed_len(st.bits.len())),
{
    if b.len() - pos < 36 {
        return None;
    }
    let m = match get_u64(b, pos) {
        Some(x) => x,
        None => return None,
    };
    let size = match get_u64(b, pos + 8) {
        Some(x) => x,
        None => return None,
    };
    let k = match get_u32(b, pos + 16) {
        Some(x) => x,
        None => return None,
    };
    let hits = match get_u64(b, pos + 20) {
        Some(x) => x,
        None => return None,
    };
    let miss = match get_u64(b, pos + 28) {
        Some(x) => x,
        None => return None,
    };
    let start = pos + 36;
    proof {
        assert forall|st: StageView| #[trigger] stage_at(b@, pos as int, st) implies st.bits.len() == m && st.size == size
            && st.hash_count == k && st.hits == hits && st.miss == miss by {
            lemma_stage_at(b@, pos as int, st);
            lemma_le64_injective(m, st.bits.len() as u64);
            lemma_le64_injective(size, st.size as u64);
            lemma_le32_injective(k, st.hash_count as u32);
            lemma_le64_injective(hits, st.hits as u64);
            lemma_le64_injective(miss, st.miss as u64);
        }
    }
    if m > MAX_BITMAP_BITS as u64 || size > m {
        return None;
    }
    let mu = m as usize;
    proof { lemma_bitmap_limit(); }
    let nb = (mu + 7) / 8;
    if nb > b.len() - start {
        return None;
    }
    let bl = b.len();
    let mut bm = zeroed_bits(mu);
    let mut j: usize = 0;
    while j < nb
        invariant
            bl == b@.len(),
            start == pos + 36,
            pos <= b@.len(),
            mu <= MAX_BITMAP_BITS,
            nb == packed_len(mu as nat),
            start + nb <= b@.len(),
            forall|st: StageView| #[trigger] stage_at(b@, pos as int, st) ==> st.bits.len() == mu,
            j <= nb,
            bits_of(bm).len() == mu,
            forall|jj: int, t: u8| 0 <= jj < j && t < 8 ==> #[trigger] bit_of(bits_of(bm), 8 * jj + t) == (b@[start + jj]
                >> t) & 1u8,
            forall|i: int| 8 * j <= i < mu ==> !#[trigger] bits_of(bm)[i],
        decreases nb - j,
    {
        let x = b[start + j];
        assert(8 * j < mu) by (nonlinear_arith)
            requires
                j < nb,
                nb == (mu + 7) / 8,
        ;
        let ghost before = bits_of(bm);
        if !unpack_byte(&mut bm, mu, j, x) {
            proof {
                assert forall|st: StageView| !#[trigger] stage_at(b@, pos as int, st) by {
                    if stage_at(b@, pos as int, st) {
                        lemma_stage_at(b@, pos as int, st);
                        lemma_packed_bits(st.bits, j as int);
                        assert(x == packed_byte(st.bits, j as int));
                        let t = choose|t: u8| t < 8 && 8 * j + t >= mu && #[trigger] ((x >> t) & 1u8) != 0u8;
                        assert(bit_of(st.bits, 8 * j + t) == 0u8);
                    }
                }
            }
            return None;
        }
        proof {
            assert forall|jj: int, t: u8| 0 <= jj < j + 1 && t < 8 implies #[trigger] bit_of(bits_of(bm), 8 * jj + t) == (
            b@[start + jj] >> t) & 1u8 by {
                if jj < j {
                    assert(bit_of(before, 8 * jj + t) == (b@[start + jj] >> t) & 1u8);
                    if 8 * jj + t < mu {
                        assert(bits_of(bm)[8 * jj + t] == before[8 * jj + t]);
                    }
                }
            }
            assert forall|i: int| 8 * (j + 1) <= i < mu implies !#[trigger] bits_of(bm)[i] by {
                assert(bits_of(bm)[i] == before[i]);
            }
        }
        j = j + 1;
    }
    let ghost bits = bits_of(bm);
    let f = BloomFilter::from_parts(bm, mu, size as usize, k, hits, miss);
    proof {
        assert forall|jj: int| 0 <= jj < nb implies #[trigger] packed_byte(bits, jj) == b@[start + jj] by {
            assert forall|t: u8| t < 8 implies #[trigger] (b@[start + jj] >> t) & 1u8 == bit_of(bits, 8 * jj + t) by {
                assert(bit_of(bits, 8 * jj + t) == (b@[start + jj] >> t) & 1u8);
            }
            lemma_packed_from_bits(bits, jj, b@[start + jj]);
        }
        assert(enc_bits(bits) =~= b@.subrange(start as int, start + nb));
        assert(b@.subrange(pos as int, start + nb) =~= b@.subrange(pos as int, pos + 8) + b@.subrange(pos + 8, pos + 16)
            + b@.subrange(pos + 16, pos + 20) + b@.subrange(pos + 20, pos + 28) + b@.subrange(pos + 28, pos + 36)
            + b@.subrange(start as int, start + nb));
        assert(b@.subrange(pos as int, start + nb) =~= enc_stage(f@));
        assert forall|st: StageView| #[trigger] stage_at(b@, pos as int, st) implies f@ == st by {
            lemma_stage_at(b@, pos as int, st);
            assert(f@.bits =~= st.bits) by {
                assert forall|i: int| 0 <= i < mu implies f@.bits[i] == st.bits[i] by {
                    let jj = i / 8;
                    assert(0 <= jj < nb);
                    lemma_packed_bits(st.bits, jj);
                    assert(b@[start + jj] == packed_byte(st.bits, jj));
                    lemma_bit_place(bits, b@[start + jj], i);
                    lemma_bit_place(st.bits, b@[start + jj], i);
                }
            }
        }
    }
    Some((f, start + nb))
}

/// Whether `b` starts with the magic tag and the stored name `name`.
pub open spec fn name_at(b: Seq<u8>, name: Seq<char>) -> bool {
    let n = encode_utf8(name);
    &&& n.len() <= usize::MAX
    &&& 12 + n.len() <= b.len()
    &&& b.subrange(0, 12 + n.len() as int) == magic() + le64(n.len() as u64) + n
}

/// Reads the length-prefixed name that follows the magic tag; returns it
/// and the position after it.
fn get_name(b: &[u8]) -> (r: Option<(String, usize)>)
    ensures
        r matches Some((name, next)) ==> next <= b@.len() && b@.subrange(0, next as int) == magic() + le64(
            encode_utf8(name@).len() as u64,
        ) + encode_utf8(name@),
        forall|name: Seq<char>| #[trigger] name_at(b@, name) ==> (r matches Some((s, next)) && s@ == name && next == 12
            + encode_utf8(name).len()),
{
    proof {
        assert forall|name: Seq<char>| #[trigger] name_at(b@, name) implies b@.subrange(0, 4) == magic() && b@.subrange(4, 12)
            == le64(encode_utf8(name).len() as u64) && b@.subrange(12, 12 + encode_utf8(name).len() as int) == encode_utf8(name) by {
            let n = encode_utf8(name);
            let x = b@.subrange(0, 12 + n.len() as int);
            assert(b@.subrange(0, 4) =~= x.subrange(0, 4));
            assert(x.subrange(0, 4) =~= magic());
            assert(b@.subrange(4, 12) =~= x.subrange(4, 12));
            assert(x.subrange(4, 12) =~= le64(n.len() as u64));
            assert(b@.subrange(12, 12 + n.len() as int) =~= x.subrange(12, 12 + n.len() as int));
            assert(x.subrange(12, 12 + n.len() as int) =~= n);
        }
    }
    if b.len() < 4 || b[0] != 0x52u8 || b[1] != 0x42u8 || b[2] != 0x4cu8 || b[3] != 1u8 {
        proof {
            assert forall|name: Seq<char>| !#[trigger] name_at(b@, name) by {
                if name_at(b@, name) {
                    assert(b@.subrange(0, 4)[0] == b@[0] && b@.subrange(0, 4)[1] == b@[1]);
                    assert(b@.subrange(0, 4)[2] == b@[2] && b@.subrange(0, 4)[3] == b@[3]);
                }
            }
        }
        return None;
    }
    proof { assert(b@.subrange(0, 4) =~= magic()); }
    let nlen = match get_u64(b, 4) {
        Some(x) => x,
        None => return None,
    };
    proof {
        lemma_extend(b@, 4, 8);
        assert forall|name: Seq<char>| #[trigger] name_at(b@, name) implies encode_utf8(name).len() == nlen by {
            lemma_le64_injective(nlen, encode_utf8(name).len() as u64);
        }
    }
    if nlen > (b.len() - 12) as u64 {
        return None;
    }
    let nl = nlen as usize;
    let bl = b.len();
    let mut name_bytes: Vec<u8> = Vec::new();
    let mut i: usize = 0;
    while i < nl
        invariant
            bl == b@.len(),
            12 + nl <= b@.len(),
            i <= nl,
            name_bytes@ == b@.subrange(12, 12 + i),
        decreases nl - i,
    {
        name_bytes.push(b[12 + i]);
        proof { assert(b@.subrange(12, 12 + i + 1) =~= b@.subrange(12, 12 + i).push(b@[12 + i])); }
        i = i + 1;
    }
    let ghost nb = name_bytes@;
    proof { lemma_extend(b@, 12, nl as int); }
    proof {
        assert forall|name: Seq<char>| #[trigger] name_at(b@, name) implies nb == encode_utf8(name) && valid_utf8(nb) by {
            vstd::utf8::encode_utf8_valid_utf8(name);
        }
    }
    let name = match string_from_utf8(name_bytes) {
        Some(s) => s,
        None => return None,
    };
    proof {
        assert forall|nm: Seq<char>| #[trigger] name_at(b@, nm) implies name@ == nm by {
            vstd::utf8::encode_utf8_decode_utf8(nm);
        }
        vstd::utf8::decode_utf8_encode_utf8(nb);
        assert(encode_utf8(name@) == nb);
        assert(nb.len() == nlen);
    }
    Some((name, 12 + nl))
}

/// Whether the bytes of `b` from `pos` to the end store the stages `st`.
pub open spec fn stages_at(b: Seq<u8>, pos: int, st: Seq<StageView>) -> bool {
    &&& 0 <= pos <= b.len()
    &&& forall|j: int| 0 <= j < st.len() ==> stage_storable(#[trigger] st[j])
    &&& total_bits(st) <= usize::MAX
    &&& b.subrange(pos, b.len() as int) == enc_stages(st)
}

proof fn lemma_enc_stages_one(x: StageView)
    ensures
        enc_stages(seq![x]) == enc_stage(x),
{
    assert(seq![x].drop_last() =~= Seq::<StageView>::empty());
    assert(enc_stages(Seq::<StageView>::empty()) + enc_stage(x) =~= enc_stage(x));
}

proof fn lemma_split3(x: Seq<u8>, p: Seq<u8>, o: Seq<u8>, r: Seq<u8>)
    requires
        x == p + o + r,
    ensures
        x.subrange(p.len() as int, (p.len() + o.len()) as int) == o,
        x.subrange(0, (p.len() + o.len()) as int) == p + o,
{
    assert(x.subrange(p.len() as int, (p.len() + o.len()) as int) =~= o);
    assert(x.subrange(0, (p.len() + o.len()) as int) =~= p + o);
}

proof fn lemma_sub_sub(b: Seq<u8>, pos: int, i: int, j: int)
    requires
        0 <= pos <= b.len(),
        0 <= i <= j <= b.len() - pos,
    ensures
        b.subrange(pos, b.len() as int).subrange(i, j) == b.subrange(pos + i, pos + j),
{
    assert(b.subrange(pos, b.len() as int).subrange(i, j) =~= b.subrange(pos + i, pos + j));
}

/// The stored stages split before stage `j` and after it.
proof fn lemma_enc_stages_split(st: Seq<StageView>, j: int)
    requires
        0 <= j < st.len(),
    ensures
        enc_stages(st) == enc_stages(st.subrange(0, j)) + enc_stage(st[j]) + enc_stages(st.subrange(j + 1, st.len() as int)),
        enc_stages(st.subrange(0, j + 1)) == enc_stages(st.subrange(0, j)) + enc_stage(st[j]),
{
    let n = st.len() as int;
    lemma_enc_stages_concat(st.subrange(0, j), st.subrange(j, n));
    assert(st.subrange(0, j) + st.subrange(j, n) =~= st);
    lemma_enc_stages_concat(seq![st[j]], st.subrange(j + 1, n));
    assert(seq![st[j]] + st.subrange(j + 1, n) =~= st.subrange(j, n));
    lemma_enc_stages_one(st[j]);
    assert(st.subrange(0, j + 1).drop_last() =~= st.subrange(0, j));
}

/// Within stored stages, stage `j` follows the stored form of those before it.
#[verifier::spinoff_prover]
proof fn lemma_stage_in(b: Seq<u8>, pos: int, at: int, st: Seq<StageView>, j: int)
    requires
        stages_at(b, pos, st),
        0 <= j < st.len(),
        pos <= at <= b.len(),
        b.subrange(pos, at) == enc_stages(st.subrange(0, j)),
    ensures
        stage_at(b, at, st[j]),
        b.subrange(pos, at + 36 + packed_len(st[j].bits.len())) == enc_stages(st.subrange(0, j + 1)),
{
    lemma_enc_stages_split(st, j);
    lemma_enc_stage_parts(st[j]);
    let pre = enc_stages(st.subrange(0, j));
    let one = enc_stage(st[j]);
    let rest = enc_stages(st.subrange(j + 1, st.len() as int));
    let x = b.subrange(pos, b.len() as int);
    assert(x == pre + one + rest);
    assert(x.len() == b.len() - pos);
    assert((pre + one + rest).len() == pre.len() + one.len() + rest.len());
    lemma_split3(x, pre, one, rest);
    assert(b.subrange(pos, at).len() == at - pos);
    assert(at - pos == pre.len());
    lemma_sub_sub(b, pos, pre.len() as int, (pre.len() + one.len()) as int);
    lemma_sub_sub(b, pos, 0, (pre.len() + one.len()) as int);
}

/// Reads `count` stages from `pos` to the end of `b`.
#[verifier::spinoff_prover]
fn get_stages(b: &[u8], pos: usize, count: u64) -> (r: Option<Vec<BloomFilter>>)
    requires
        pos <= b@.len(),
    ensures
        r matches Some(fs) ==> {
            &&& fs@.len() == count
            &&& forall|q: int| 0 <= q < fs@.len() ==> (#[trigger] fs@[q]).wf()
            &&& total_bits(fs@.map_values(|f: BloomFilter| f@)) <= usize::MAX
            &&& b@.subrange(pos as int, b@.len() as int) == enc_stages(fs@.map_values(|f: BloomFilter| f@))
        },
        forall|st: Seq<StageView>| #[trigger] stages_at(b@, pos as int, st) && st.len() == count ==> (r matches Some(fs)
            && fs@.map_values(|f: BloomFilter| f@) == st),
{
    let mut filters: Vec<BloomFilter> = Vec::new();
    let mut total: usize = 0;
    let mut at: usize = pos;
    let mut j: u64 = 0;
    proof {
        assert(b@.subrange(pos as int, pos as int) =~= enc_stages(filters@.map_values(|f: BloomFilter| f@)));
        assert forall|st: Seq<StageView>| #[trigger] stages_at(b@, pos as int, st) && st.len() == count implies filters@.map_values(
            |f: BloomFilter| f@,
        ) == st.subrange(0, 0) by {
            assert(filters@.map_values(|f: BloomFilter| f@) =~= st.subrange(0, 0));
        }
    }
    while j < count
        invariant
            pos <= at <= b@.len(),
            b@.subrange(pos as int, at as int) == enc_stages(filters@.map_values(|f: BloomFilter| f@)),
            forall|q: int| 0 <= q < filters@.len() ==> (#[trigger] filters@[q]).wf(),
            total == total_bits(filters@.map_values(|f: BloomFilter| f@)),
            filters@.len() == j,
            j <= count,
            forall|st: Seq<StageView>| #[trigger] stages_at(b@, pos as int, st) && st.len() == count ==> filters@.map_values(
                |f: BloomFilter| f@,
            ) == st.subrange(0, j as int),
        decreases count - j,
    {
        let ghost before = filters@;
        proof {
            assert forall|st: Seq<StageView>| #[trigger] stages_at(b@, pos as int, st) && st.len() == count implies stage_at(
                b@,
                at as int,
                st[j as int],
            ) by {
                lemma_stage_in(b@, pos as int, at as int, st, j as int);
            }
        }
        let (f, next) = match get_stage(b, at) {
            Some(x) => x,
            None => {
                proof {
                    assert forall|st: Seq<StageView>| !(#[trigger] stages_at(b@, pos as int, st) && st.len() == count) by {
                        if stages_at(b@, pos as int, st) && st.len() == count {
                            lemma_stage_in(b@, pos as int, at as int, st, j as int);
                        }
                    }
                }
                return None;
            },
        };
        let m = f.capacity();
        if m > usize::MAX - total {
            proof {
                assert forall|st: Seq<StageView>| !(#[trigger] stages_at(b@, pos as int, st) && st.len() == count) by {
                    if stages_at(b@, pos as int, st) && st.len() == count {
                        lemma_stage_in(b@, pos as int, at as int, st, j as int);
                        let p1 = st.subrange(0, j + 1);
                        assert(p1.drop_last() =~= st.subrange(0, j as int));
                        lemma_total_bits_prefix(st, j + 1);
                    }
                }
            }
            return None;
        }
        total = total + m;
        let ghost fv = f@;
        filters.push(f);
        proof {
            let views = filters@.map_values(|f: BloomFilter| f@);
            assert(views =~= before.map_values(|f: BloomFilter| f@).push(fv));
            assert(views.drop_last() =~= before.map_values(|f: BloomFilter| f@));
            assert(b@.subrange(pos as int, next as int) =~= b@.subrange(pos as int, at as int) + b@.subrange(
                at as int,
                next as int,
            ));
            assert forall|q: int| 0 <= q < filters@.len() implies (#[trigger] filters@[q]).wf() by {
                if q < before.len() {
                    assert(filters@[q] == before[q]);
                }
            }
            assert forall|st: Seq<StageView>| #[trigger] stages_at(b@, pos as int, st) && st.len() == count implies views
                == st.subrange(0, j + 1) by {
                lemma_stage_in(b@, pos as int, at as int, st, j as int);
                assert(views =~= st.subrange(0, j + 1));
            }
        }
        at = next;
        j = j + 1;
    }
    if at != b.len() {
        proof {
            assert forall|st: Seq<StageView>| !(#[trigger] stages_at(b@, pos as int, st) && st.len() == count) by {
                if stages_at(b@, pos as int, st) && st.len() == count {
                    assert(st.subrange(0, count as int) =~= st);
                }
            }
        }
        return None;
    }
    Some(filters)
}

proof fn lemma_enc_fields_parts(v: ScalableView)
    ensures
        ({
            let m = enc_fields(v);
            &&& m.len() == 45
            &&& m.subrange(0, 8) == le64(v.initial_capacity as u64)
            &&& m.subrange(8, 16) == le64(v.fpp.mantissa)
            &&& m.subrange(16, 20) == le32(v.fpp.scale)
            &&& m[20] == scale_byte(v.scale_factor)
            &&& m.subrange(21, 29) == le64(v.creation_time as u64)
            &&& m.subrange(29, 37) == le64(v.last_access_time as u64)
            &&& m.subrange(37, 45) == le64(v.stages.len() as u64)
        }),
{
    let m = enc_fields(v);
    assert(m.subrange(0, 8) =~= le64(v.initial_capacity as u64));
    assert(m.subrange(8, 16) =~= le64(v.fpp.mantissa));
    assert(m.subrange(16, 20) =~= le32(v.fpp.scale));
    assert(m.subrange(21, 29) =~= le64(v.creation_time as u64));
    assert(m.subrange(29, 37) =~= le64(v.last_access_time as u64));
    assert(m.subrange(37, 45) =~= le64(v.stages.len() as u64));
}

/// The fields of a stored filter, at their offsets after the name.
#[verifier::spinoff_prover]
#[verifier::rlimit(60)]
proof fn lemma_enc_filter_parts(v: ScalableView)
    ensures
        ({
            let n = encode_utf8(v.name);
            let e = enc_filter(v);
            let s = 12 + n.len() as int;
            &&& e.len() == s + 45 + enc_stages(v.stages).len()
            &&& e.subrange(0, s) == magic() + le64(n.len() as u64) + n
            &&& e.subrange(s, s + 8) == le64(v.initial_capacity as u64)
            &&& e.subrange(s + 8, s + 16) == le64(v.fpp.mantissa)
            &&& e.subrange(s + 16, s + 20) == le32(v.fpp.scale)
            &&& e[s + 20] == scale_byte(v.scale_factor)
            &&& e.subrange(s + 21, s + 29) == le64(v.creation_time as u64)
            &&& e.subrange(s + 29, s + 37) == le64(v.last_access_time as u64)
            &&& e.subrange(s + 37, s + 45) == le64(v.stages.len() as u64)
            &&& e.subrange(s + 45, e.len() as int) == enc_stages(v.stages)
        }),
{
    let head = enc_head(v.name);
    let m = enc_fields(v);
    let tail = enc_stages(v.stages);
    let e = enc_filter(v);
    lemma_enc_fields_parts(v);
    lemma_split3(e, head, m, tail);
    let s = head.len() as int;
    assert(e.subrange(0, s) =~= head);
    assert(e.subrange(s + 45, e.len() as int) =~= tail);
    let x = e.subrange(s, s + 45);
    assert(e.subrange(s, s + 8) =~= x.subrange(0, 8));
    assert(e.subrange(s + 8, s + 16) =~= x.subrange(8, 16));
    assert(e.subrange(s + 16, s + 20) =~= x.subrange(16, 20));
    assert(e[s + 20] == x[20]);
    assert(e.subrange(s + 21, s + 29) =~= x.subrange(21, 29));
    assert(e.subrange(s + 29, s + 37) =~= x.subrange(29, 37));
    assert(e.subrange(s + 37, s + 45) =~= x.subrange(37, 45));
}

/// What a storable filter's stored bytes say, field by field.
proof fn lemma_filter_at(b: Seq<u8>, v: ScalableView)
    requires
        storable(v),
        b == enc_filter(v),
    ensures
        name_at(b, v.name),
        ({
            let s = 12 + encode_utf8(v.name).len() as int;
            &&& b.len() == s + 45 + enc_stages(v.stages).len()
            &&& b.subrange(s, s + 8) == le64(v.initial_capacity as u64)
            &&& b.subrange(s + 8, s + 16) == le64(v.fpp.mantissa)
            &&& b.subrange(s + 16, s + 20) == le32(v.fpp.scale)
            &&& b[s + 20] == scale_byte(v.scale_factor)
            &&& b.subrange(s + 21, s + 29) == le64(v.creation_time as u64)
            &&& b.subrange(s + 29, s + 37) == le64(v.last_access_time as u64)
            &&& b.subrange(s + 37, s + 45) == le64(v.stages.len() as u64)
            &&& stages_at(b, s + 45, v.stages)
        }),
{
    lemma_enc_filter_parts(v);
}

/// Reads the fields and the stages that follow the name, which ends at `start`.
#[verifier::spinoff_prover]
#[verifier::rlimit(80)]
fn get_rest(b: &[u8], start: usize, name: String) -> (r: Option<ScalableBloomFilter>)
    requires
        start <= b@.len(),
    ensures
        r matches Some(f) ==> f.wf() && f@.name == name@ && b@.subrange(start as int, b@.len() as int) == enc_fields(f@)
            + enc_stages(f@.stages),
        forall|v: ScalableView|
            storable(v) && b@ == #[trigger] enc_filter(v) && v.name == name@ && start == 12 + encode_utf8(v.name).len()
                ==> (r matches Some(f) && f@ == v),
{
    if b.len() - start < 45 {
        proof {
            assert forall|v: ScalableView|
                !(storable(v) && b@ == #[trigger] enc_filter(v) && v.name == name@ && start == 12 + encode_utf8(v.name).len()) by {
                if storable(v) && b@ == enc_filter(v) && v.name == name@ && start == 12 + encode_utf8(v.name).len() {
                    lemma_filter_at(b@, v);
                }
            }
        }
        return None;
    }
    let cap = match get_u64(b, start) {
        Some(x) => x,
        None => return None,
    };
    let mant = match get_u64(b, start + 8) {
        Some(x) => x,
        None => return None,
    };
    let scale = match get_u32(b, start + 16) {
        Some(x) => x,
        None => return None,
    };
    let created = match get_u64(b, start + 21) {
        Some(x) => x,
        None => return None,
    };
    let last = match get_u64(b, start + 29) {
        Some(x) => x,
        None => return None,
    };
    let count = match get_u64(b, start + 37) {
        Some(x) => x,
        None => return None,
    };
    proof {
        assert forall|v: ScalableView|
            storable(v) && b@ == #[trigger] enc_filter(v) && v.name == name@ && start == 12 + encode_utf8(v.name).len()
            implies cap == v.initial_capacity && mant == v.fpp.mantissa && scale == v.fpp.scale && created
            == v.creation_time as u64 && last == v.last_access_time as u64 && count == v.stages.len() && b@[start + 20]
            == scale_byte(v.scale_factor) && stages_at(b@, start + 45, v.stages) by {
            lemma_filter_at(b@, v);
            lemma_le64_injective(cap, v.initial_capacity as u64);
            lemma_le64_injective(mant, v.fpp.mantissa);
            lemma_le32_injective(scale, v.fpp.scale);
            lemma_le64_injective(created, v.creation_time as u64);
            lemma_le64_injective(last, v.last_access_time as u64);
            lemma_le64_injective(count, v.stages.len() as u64);
        }
    }
    let sf = if b[start + 20] == 2u8 {
        ScaleFactor::SmallScaleSize
    } else if b[start + 20] == 4u8 {
        ScaleFactor::LargeScaleSize
    } else {
        return None;
    };
    if cap > usize::MAX as u64 {
        return None;
    }
    let filters = match get_stages(b, start + 45, count) {
        Some(fs) => fs,
        None => return None,
    };
    let fpp = Fpp { mantissa: mant, scale };
    let r = ScalableBloomFilter::from_parts(name, cap as usize, filters, fpp, sf, created as i64, last as i64);
    proof {
        assert((created as i64) as u64 == created) by (bit_vector);
        assert((last as i64) as u64 == last) by (bit_vector);
        let s0 = start as int;
        let x = b@.subrange(s0, b@.len() as int);
        assert(x.subrange(0, 45) =~= enc_fields(r@)) by {
            assert(b@.subrange(s0, s0 + 8) =~= x.subrange(0, 8));
            assert(b@.subrange(s0 + 8, s0 + 16) =~= x.subrange(8, 16));
            assert(b@.subrange(s0 + 16, s0 + 20) =~= x.subrange(16, 20));
            assert(b@.subrange(s0 + 21, s0 + 29) =~= x.subrange(21, 29));
            assert(b@.subrange(s0 + 29, s0 + 37) =~= x.subrange(29, 37));
            assert(b@.subrange(s0 + 37, s0 + 45) =~= x.subrange(37, 45));
            lemma_enc_fields_parts(r@);
        }
        assert(x.subrange(45, x.len() as int) =~= b@.subrange(s0 + 45, b@.len() as int));
        assert(x =~= x.subrange(0, 45) + x.subrange(45, x.len() as int));
        assert forall|v: ScalableView|
            storable(v) && b@ == #[trigger] enc_filter(v) && v.name == name@ && start == 12 + encode_utf8(v.name).len()
            implies r@ == v by {
            let t = v.creation_time as i64;
            let u = v.last_access_time as i64;
            assert(((t as u64) as i64) == t) by (bit_vector);
            assert(((u as u64) as i64) == u) by (bit_vector);
            assert(scale_byte(v.scale_factor) == scale_byte(sf));
        }
    }
    Some(r)
}

/// Rebuilds a filter from its stored bytes. Any filter returned is well
/// formed and is stored as exactly these bytes; and the stored bytes of any
/// storable filter give back that filter.
#[verifier::spinoff_prover]
pub fn decode(b: &[u8]) -> (r: Option<ScalableBloomFilter>)
    ensures
        r matches Some(f) ==> f.wf() && enc_filter(f@) == b@,
        forall|v: ScalableView| storable(v) && b@ == #[trigger] enc_filter(v) ==> (r matches Some(f) && f@ == v),
{
    let (name, start) = match get_name(b) {
        Some(x) => x,
        None => {
            proof {
                assert forall|v: ScalableView| !(storable(v) && b@ == #[trigger] enc_filter(v)) by {
                    if storable(v) && b@ == enc_filter(v) {
                        lemma_filter_at(b@, v);
                    }
                }
            }
            return None;
        },
    };
    let ghost nv = name@;
    proof {
        assert forall|v: ScalableView| storable(v) && b@ == #[trigger] enc_filter(v) implies nv == v.name && start == 12
            + encode_utf8(v.name).len() by {
            lemma_filter_at(b@, v);
        }
    }
    let r = get_rest(b, start, name);
    proof {
        if r is Some {
            let f = r->Some_0;
            assert(b@ =~= b@.subrange(0, start as int) + b@.subrange(start as int, b@.len() as int));
            assert(b@ =~= enc_filter(f@));
        }
    }
    r
}

} // verus!
