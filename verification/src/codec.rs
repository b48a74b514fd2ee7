//! Low-level pieces of the block codec: little-endian integer fields,
//! big-endian 32-bit fields, lexicographic byte-string order for directory
//! entries, and the packed bit-vector form of an aspect's block map.

use vstd::prelude::*;

use vstd::bytes::{
    spec_u32_to_le_bytes, spec_u32_from_le_bytes, u32_to_le_bytes, u32_from_le_bytes,
    spec_u64_to_le_bytes, spec_u64_from_le_bytes, u64_to_le_bytes, u64_from_le_bytes,
    lemma_auto_spec_u32_to_from_le_bytes, lemma_auto_spec_u64_to_from_le_bytes,
};
use vstd::slice::slice_subrange;

verus! {

// ---------------------------------------------------------------------------
// Little-endian fields
// ---------------------------------------------------------------------------

/// Append the 4-byte little-endian form of `x`.
pub fn push_u32_le(out: &mut Vec<u8>, x: u32)
    ensures
        final(out)@ == old(out)@ + spec_u32_to_le_bytes(x),
{
    let mut b = u32_to_le_bytes(x);
    out.append(&mut b);
}

/// Append the 8-byte little-endian form of `x`.
pub fn push_u64_le(out: &mut Vec<u8>, x: u64)
    ensures
        final(out)@ == old(out)@ + spec_u64_to_le_bytes(x),
{
    let mut b = u64_to_le_bytes(x);
    out.append(&mut b);
}

/// Read the little-endian `u32` at byte offset `pos`.
pub fn read_u32_le(b: &[u8], pos: usize) -> (x: u32)
    requires
        pos + 4 <= b@.len(),
    ensures
        x == spec_u32_from_le_bytes(b@.subrange(pos as int, pos as int + 4)),
{
    let n = b.len();
    u32_from_le_bytes(slice_subrange(b, pos, pos + 4))
}

/// Read the little-endian `u64` at byte offset `pos`.
pub fn read_u64_le(b: &[u8], pos: usize) -> (x: u64)
    requires
        pos + 8 <= b@.len(),
    ensures
        x == spec_u64_from_le_bytes(b@.subrange(pos as int, pos as int + 8)),
{
    let n = b.len();
    u64_from_le_bytes(slice_subrange(b, pos, pos + 8))
}

// ---------------------------------------------------------------------------
// Big-endian u32 fields (the aspect's root block, and the per-block IV seed)
// ---------------------------------------------------------------------------

/// The 4-byte big-endian form of `x`.
pub open spec fn spec_u32_to_be_bytes(x: u32) -> Seq<u8> {
    seq![
        ((x >> 24) & 0xff) as u8,
        ((x >> 16) & 0xff) as u8,
        ((x >> 8) & 0xff) as u8,
        (x & 0xff) as u8,
    ]
}

/// The `u32` denoted by 4 big-endian bytes.
pub open spec fn spec_u32_from_be_bytes(s: Seq<u8>) -> u32
    recommends
        s.len() == 4,
{
    (s[3] as u32) | (s[2] as u32) << 8 | (s[1] as u32) << 16 | (s[0] as u32) << 24
}

/// The big-endian `u32` encoding is injective.
pub proof fn lemma_u32_be_bytes_injective()
    ensures
        forall|x: u32|
            {
                &&& (#[trigger] spec_u32_to_be_bytes(x)).len() == 4
                &&& spec_u32_from_be_bytes(spec_u32_to_be_bytes(x)) == x
            },
{
    assert forall|x: u32|
        {
            &&& (#[trigger] spec_u32_to_be_bytes(x)).len() == 4
            &&& spec_u32_from_be_bytes(spec_u32_to_be_bytes(x)) == x
        } by {
        assert({
            &&& x & 0xff < 256
            &&& (x >> 8) & 0xff < 256
            &&& (x >> 16) & 0xff < 256
            &&& (x >> 24) & 0xff < 256
        }) by (bit_vector);
        assert((x & 0xff) | (((x >> 8) & 0xff) << 8) | (((x >> 16) & 0xff) << 16) | (((x >> 24)
            & 0xff) << 24) == x) by (bit_vector);
    };
}

/// Append the 4-byte big-endian form of `x`.
pub fn push_u32_be(out: &mut Vec<u8>, x: u32)
    ensures
        final(out)@ == old(out)@ + spec_u32_to_be_bytes(x),
{
    out.push(((x >> 24) & 0xff) as u8);
    out.push(((x >> 16) & 0xff) as u8);
    out.push(((x >> 8) & 0xff) as u8);
    out.push((x & 0xff) as u8);
    proof {
        assert(out@ =~= old(out)@ + spec_u32_to_be_bytes(x));
    }
}

/// The 4-byte big-endian form of `x` on its own.
pub fn u32_to_be_vec(x: u32) -> (r: Vec<u8>)
    ensures
        r@ == spec_u32_to_be_bytes(x),
{
    let mut out: Vec<u8> = Vec::new();
    push_u32_be(&mut out, x);
    proof {
        assert(out@ =~= spec_u32_to_be_bytes(x));
    }
    out
}

/// Read the big-endian `u32` at byte offset `pos`.
pub fn read_u32_be(b: &[u8], pos: usize) -> (x: u32)
    requires
        pos + 4 <= b@.len(),
    ensures
        x == spec_u32_from_be_bytes(b@.subrange(pos as int, pos as int + 4)),
{
    let b0 = b[pos] as u32;
    let b1 = b[pos + 1] as u32;
    let b2 = b[pos + 2] as u32;
    let b3 = b[pos + 3] as u32;
    b3 | (b2 << 8) | (b1 << 16) | (b0 << 24)
}

/// A middle part of a concatenation that prefixes `b` equals the matching
/// range of `b`.
pub proof fn lemma_concat_part(pre: Seq<u8>, part: Seq<u8>, post: Seq<u8>, b: Seq<u8>)
    requires
        (pre + part + post).is_prefix_of(b),
    ensures
        part =~= b.subrange(pre.len() as int, pre.len() as int + part.len() as int),
{
    let whole = pre + part + post;
    assert forall|i: int| 0 <= i < part.len() implies part[i] == b[pre.len() + i] by {
        assert(whole[pre.len() + i] == part[i]);
        assert(whole[pre.len() + i] == b.subrange(0, whole.len() as int)[pre.len() + i]);
    }
}

// ---------------------------------------------------------------------------
// Lexicographic order on byte strings
// ---------------------------------------------------------------------------

/// Strict lexicographic order on byte strings; a proper prefix sorts first.
pub open spec fn bytes_lt(a: Seq<u8>, b: Seq<u8>) -> bool
    decreases a.len(),
{
    if b.len() == 0 {
        false
    } else if a.len() == 0 {
        true
    } else if a[0] < b[0] {
        true
    } else if a[0] > b[0] {
        false
    } else {
        bytes_lt(a.skip(1), b.skip(1))
    }
}

/// When the first `i` bytes agree, the order is decided by the remainders.
pub proof fn lemma_bytes_lt_skip(a: Seq<u8>, b: Seq<u8>, i: int)
    requires
        0 <= i <= a.len(),
        i <= b.len(),
        forall|j: int| 0 <= j < i ==> a[j] == b[j],
    ensures
        bytes_lt(a, b) == bytes_lt(a.skip(i), b.skip(i)),
    decreases i,
{
    if i == 0 {
        assert(a.skip(0) =~= a);
        assert(b.skip(0) =~= b);
    } else {
        assert(a[0] == b[0]);
        lemma_bytes_lt_skip(a.skip(1), b.skip(1), i - 1);
        assert(a.skip(1).skip(i - 1) =~= a.skip(i));
        assert(b.skip(1).skip(i - 1) =~= b.skip(i));
    }
}

/// Lexicographic order is transitive.
pub proof fn lemma_bytes_lt_trans(a: Seq<u8>, b: Seq<u8>, c: Seq<u8>)
    requires
        bytes_lt(a, b),
        bytes_lt(b, c),
    ensures
        bytes_lt(a, c),
    decreases a.len(),
{
    if a.len() == 0 {
    } else {
        if a[0] < b[0] {
            if b[0] < c[0] {
            } else {
                assert(b[0] == c[0]);
            }
        } else {
            assert(a[0] == b[0]);
            if b[0] < c[0] {
            } else {
                assert(b[0] == c[0]);
                lemma_bytes_lt_trans(a.skip(1), b.skip(1), c.skip(1));
            }
        }
    }
}

/// Lexicographic order is asymmetric, and in particular irreflexive.
pub proof fn lemma_bytes_lt_asym(a: Seq<u8>, b: Seq<u8>)
    requires
        bytes_lt(a, b),
    ensures
        !bytes_lt(b, a),
        a != b,
    decreases a.len(),
{
    if a.len() == 0 {
    } else {
        if a[0] == b[0] {
            lemma_bytes_lt_asym(a.skip(1), b.skip(1));
            assert(a != b) by {
                if a == b {
                    assert(a.skip(1) =~= b.skip(1));
                }
            }
        }
    }
}

/// Any two byte strings are ordered or equal.
pub proof fn lemma_bytes_lt_total(a: Seq<u8>, b: Seq<u8>)
    ensures
        a == b || bytes_lt(a, b) || bytes_lt(b, a),
    decreases a.len(),
{
    if a.len() == 0 {
        if b.len() == 0 {
            assert(a =~= b);
        }
    } else if b.len() == 0 {
    } else if a[0] == b[0] {
        lemma_bytes_lt_total(a.skip(1), b.skip(1));
        if a.skip(1) == b.skip(1) {
            assert(a.skip(1).len() == a.len() - 1);
            assert(b.skip(1).len() == b.len() - 1);
            assert(a.len() == b.len());
            assert forall|i: int| 0 <= i < a.len() implies a[i] == b[i] by {
                if i > 0 {
                    assert(a.skip(1)[i - 1] == b.skip(1)[i - 1]);
                    assert(a.skip(1)[i - 1] == a[i]);
                    assert(b.skip(1)[i - 1] == b[i]);
                }
            }
            assert(a =~= b);
        }
    }
}

/// `bytes_lt` decided on byte vectors.
pub fn vec_bytes_lt(a: &Vec<u8>, b: &Vec<u8>) -> (r: bool)
    ensures
        r == bytes_lt(a@, b@),
{
    let n = if a.len() < b.len() {
        a.len()
    } else {
        b.len()
    };
    let mut i: usize = 0;
    while i < n
        invariant
            i <= n,
            n <= a@.len(),
            n <= b@.len(),
            n == a@.len() || n == b@.len(),
            forall|j: int| 0 <= j < i ==> a@[j] == b@[j],
        decreases n - i,
    {
        let x = a[i];
        let y = b[i];
        if x != y {
            proof {
                lemma_bytes_lt_skip(a@, b@, i as int);
            }
            return x < y;
        }
        i = i + 1;
    }
    proof {
        lemma_bytes_lt_skip(a@, b@, n as int);
    }
    a.len() < b.len()
}

/// Byte-vector equality.
pub fn vec_bytes_eq(a: &Vec<u8>, b: &Vec<u8>) -> (r: bool)
    ensures
        r == (a@ == b@),
{
    if a.len() != b.len() {
        return false;
    }
    let mut i: usize = 0;
    while i < a.len()
        invariant
            i <= a@.len(),
            a@.len() == b@.len(),
            forall|j: int| 0 <= j < i ==> a@[j] == b@[j],
        decreases a@.len() - i,
    {
        if a[i] != b[i] {
            return false;
        }
        i = i + 1;
    }
    proof {
        assert(a@ =~= b@);
    }
    true
}

// ---------------------------------------------------------------------------
// Packed bit vectors (the on-disk form of a block map)
// ---------------------------------------------------------------------------

/// Bit `i` of a bit vector, as 0 or 1; positions past the end read as 0.
pub open spec fn bit_val(bits: Seq<bool>, i: int) -> u8 {
    if 0 <= i < bits.len() && bits[i] {
        1u8
    } else {
        0u8
    }
}

/// Byte `j` of the packed form: bit `8 j + k` lands at bit position `k`
/// (least significant bit first).
pub open spec fn pack_byte(bits: Seq<bool>, j: int) -> u8 {
    (bit_val(bits, 8 * j) + 2 * bit_val(bits, 8 * j + 1) + 4 * bit_val(bits, 8 * j + 2) + 8
        * bit_val(bits, 8 * j + 3) + 16 * bit_val(bits, 8 * j + 4) + 32 * bit_val(bits, 8 * j + 5)
        + 64 * bit_val(bits, 8 * j + 6) + 128 * bit_val(bits, 8 * j + 7)) as u8
}

/// The packed byte form of a bit vector: `ceil(len / 8)` bytes.
pub open spec fn pack_bits(bits: Seq<bool>) -> Seq<u8> {
    Seq::new(((bits.len() + 7) / 8) as nat, |j: int| pack_byte(bits, j))
}

/// Whether bit `k` of byte `b` is set.
pub open spec fn byte_bit(b: u8, k: int) -> bool
    recommends
        0 <= k < 8,
{
    (b >> (k as u8)) & 1 == 1
}

/// The first `n` bits denoted by a packed byte string.
pub open spec fn unpack_bits(bytes: Seq<u8>, n: int) -> Seq<bool>
    recommends
        0 <= n,
        n <= 8 * bytes.len(),
{
    Seq::new(n as nat, |i: int| byte_bit(bytes[i / 8], i % 8))
}

/// Extracting each bit position of a packed byte recovers the packed bits.
proof fn lemma_pack_byte_extract(b0: u8, b1: u8, b2: u8, b3: u8, b4: u8, b5: u8, b6: u8, b7: u8)
    requires
        b0 <= 1,
        b1 <= 1,
        b2 <= 1,
        b3 <= 1,
        b4 <= 1,
        b5 <= 1,
        b6 <= 1,
        b7 <= 1,
    ensures
        ({
            let s = (b0 + 2 * b1 + 4 * b2 + 8 * b3 + 16 * b4 + 32 * b5 + 64 * b6 + 128 * b7) as u8;
            &&& (s >> 0u8) & 1 == b0
            &&& (s >> 1u8) & 1 == b1
            &&& (s >> 2u8) & 1 == b2
            &&& (s >> 3u8) & 1 == b3
            &&& (s >> 4u8) & 1 == b4
            &&& (s >> 5u8) & 1 == b5
            &&& (s >> 6u8) & 1 == b6
            &&& (s >> 7u8) & 1 == b7
        }),
{
    let s = (b0 + 2 * b1 + 4 * b2 + 8 * b3 + 16 * b4 + 32 * b5 + 64 * b6 + 128 * b7) as u8;
    assert(b0 <= 1 && b1 <= 1 && b2 <= 1 && b3 <= 1 && b4 <= 1 && b5 <= 1 && b6 <= 1 && b7 <= 1
        ==> {
        let t = (b0 + 2 * b1 + 4 * b2 + 8 * b3 + 16 * b4 + 32 * b5 + 64 * b6 + 128 * b7) as u8;
        &&& (t >> 0u8) & 1 == b0
        &&& (t >> 1u8) & 1 == b1
        &&& (t >> 2u8) & 1 == b2
        &&& (t >> 3u8) & 1 == b3
        &&& (t >> 4u8) & 1 == b4
        &&& (t >> 5u8) & 1 == b5
        &&& (t >> 6u8) & 1 == b6
        &&& (t >> 7u8) & 1 == b7
    }) by (bit_vector);
}

/// Unpacking a packed bit vector gives the bits back.
pub proof fn lemma_unpack_pack_bits(bits: Seq<bool>)
    ensures
        unpack_bits(pack_bits(bits), bits.len() as int) =~= bits,
{
    assert forall|i: int| 0 <= i < bits.len() implies unpack_bits(
        pack_bits(bits),
        bits.len() as int,
    )[i] == bits[i] by {
        let j = i / 8;
        let k = i % 8;
        assert(0 <= k < 8);
        assert(0 <= j < pack_bits(bits).len());
        lemma_pack_byte_extract(
            bit_val(bits, 8 * j),
            bit_val(bits, 8 * j + 1),
            bit_val(bits, 8 * j + 2),
            bit_val(bits, 8 * j + 3),
            bit_val(bits, 8 * j + 4),
            bit_val(bits, 8 * j + 5),
            bit_val(bits, 8 * j + 6),
            bit_val(bits, 8 * j + 7),
        );
        assert(8 * j + k == i);
        assert(byte_bit(pack_byte(bits, j), k) == (bit_val(bits, i) == 1));
    }
}

/// Append the packed byte form of `bits`.
#[verifier::rlimit(50)]
pub fn push_packed_bits(out: &mut Vec<u8>, bits: &Vec<bool>)
    ensures
        final(out)@ == old(out)@ + pack_bits(bits@),
{
    let nbits = bits.len();
    let nbytes = nbits / 8 + if nbits % 8 == 0 {
        0
    } else {
        1
    };
    assert(nbytes == (bits@.len() + 7) / 8);
    let ghost base = out@;
    let mut j: usize = 0;
    while j < nbytes
        invariant
            j <= nbytes,
            nbytes == (bits@.len() + 7) / 8,
            bits@.len() <= usize::MAX,
            out@.len() == base.len() + j,
            forall|t: int| 0 <= t < base.len() ==> out@[t] == base[t],
            forall|t: int| 0 <= t < j ==> out@[base.len() + t] == pack_byte(bits@, t),
        decreases nbytes - j,
    {
        assert(8 * (j as int) <= bits@.len() - 1);
        let lo = 8 * j;
        let rem = bits.len() - lo;
        let mut v: u8 = 0;
        if bits[lo] {
            v = v + 1;
        }
        if rem > 1 && bits[lo + 1] {
            v = v + 2;
        }
        if rem > 2 && bits[lo + 2] {
            v = v + 4;
        }
        if rem > 3 && bits[lo + 3] {
            v = v + 8;
        }
        if rem > 4 && bits[lo + 4] {
            v = v + 16;
        }
        if rem > 5 && bits[lo + 5] {
            v = v + 32;
        }
        if rem > 6 && bits[lo + 6] {
            v = v + 64;
        }
        if rem > 7 && bits[lo + 7] {
            v = v + 128;
        }
        assert(v == pack_byte(bits@, j as int));
        out.push(v);
        j = j + 1;
    }
    proof {
        assert(out@ =~= base + pack_bits(bits@));
    }
}

/// The first `nbits` bits packed in `bytes`, unpacked into a bit vector.
pub fn unpack_bits_exec(bytes: &[u8], off: usize, nbits: usize) -> (r: Vec<bool>)
    requires
        off <= bytes@.len(),
        nbits <= 8 * (bytes@.len() - off),
    ensures
        r@ == unpack_bits(bytes@.skip(off as int), nbits as int),
        r@.len() == nbits,
{
    let blen = bytes.len();
    let mut r: Vec<bool> = Vec::new();
    let mut i: usize = 0;
    while i < nbits
        invariant
            i <= nbits,
            off <= bytes@.len(),
            bytes@.len() <= usize::MAX,
            nbits <= 8 * (bytes@.len() - off),
            r@.len() == i,
            forall|t: int|
                0 <= t < i ==> r@[t] == byte_bit(bytes@.skip(off as int)[t / 8], t % 8),
        decreases nbits - i,
    {
        assert(off + (i as int) / 8 < bytes@.len());
        let byte = bytes[off + i / 8];
        let k = (i % 8) as u8;
        let bit = (byte >> k) & 1 == 1;
        assert(bytes@.skip(off as int)[(i as int) / 8] == bytes@[off + (i as int) / 8]);
        r.push(bit);
        i = i + 1;
    }
    proof {
        assert(r@ =~= unpack_bits(bytes@.skip(off as int), nbits as int));
    }
    r
}

} // verus!
