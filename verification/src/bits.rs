//! Bit-level packing and unpacking of the encoded payload, and the
//! big-endian byte form of the symbol count.
//!
//! Packing is least-significant-bit first: the first bit fills bit 0 of the
//! current output byte; a partially filled final byte is zero-padded in its
//! high bits.

use vstd::prelude::*;

verus! {

/// Bit `k` of the byte `x` (bit 0 is the least significant).
pub open spec fn bit_of(x: u8, k: int) -> bool {
    (x >> (k as u8)) & 1 == 1
}

/// The value (0 or 1) that bit `i` of `bits` contributes; out-of-range
/// positions contribute 0, which is how final-byte padding arises.
pub open spec fn bitval(bits: Seq<bool>, i: int) -> u8 {
    if 0 <= i < bits.len() && bits[i] {
        1
    } else {
        0
    }
}

/// The byte packed from `bits[start..start + 8]`, LSB first.
pub open spec fn byte_of_bits(bits: Seq<bool>, start: int) -> u8 {
    (bitval(bits, start) + 2 * bitval(bits, start + 1) + 4 * bitval(bits, start + 2) + 8 * bitval(
        bits,
        start + 3,
    ) + 16 * bitval(bits, start + 4) + 32 * bitval(bits, start + 5) + 64 * bitval(bits, start + 6)
        + 128 * bitval(bits, start + 7)) as u8
}

/// How many bytes `n` bits pack into.
pub open spec fn packed_len(n: nat) -> nat {
    n / 8 + if n % 8 != 0 {
        1nat
    } else {
        0nat
    }
}

/// The packed byte form of a bit sequence.
pub open spec fn spec_pack(bits: Seq<bool>) -> Seq<u8> {
    Seq::new(packed_len(bits.len()), |j: int| byte_of_bits(bits, 8 * j))
}

/// All bits of a byte sequence, LSB first within each byte.
pub open spec fn spec_unpack(bytes: Seq<u8>) -> Seq<bool> {
    Seq::new(8 * bytes.len(), |i: int| bit_of(bytes[i / 8], i % 8))
}

/// Reading a bit back out of a packed byte gives the bit that went in.
proof fn lemma_byte_bits(s: u8, b0: u8, b1: u8, b2: u8, b3: u8, b4: u8, b5: u8, b6: u8, b7: u8)
    by (bit_vector)
    requires
        b0 <= 1,
        b1 <= 1,
        b2 <= 1,
        b3 <= 1,
        b4 <= 1,
        b5 <= 1,
        b6 <= 1,
        b7 <= 1,
        s == b0 + 2 * b1 + 4 * b2 + 8 * b3 + 16 * b4 + 32 * b5 + 64 * b6 + 128 * b7,
    ensures
        ((s >> 0u8) & 1 == 1) <==> (b0 == 1),
        ((s >> 1u8) & 1 == 1) <==> (b1 == 1),
        ((s >> 2u8) & 1 == 1) <==> (b2 == 1),
        ((s >> 3u8) & 1 == 1) <==> (b3 == 1),
        ((s >> 4u8) & 1 == 1) <==> (b4 == 1),
        ((s >> 5u8) & 1 == 1) <==> (b5 == 1),
        ((s >> 6u8) & 1 == 1) <==> (b6 == 1),
        ((s >> 7u8) & 1 == 1) <==> (b7 == 1),
{
}

/// Bit `k` of the byte packed from `bits[start..]` is `bits[start + k]`,
/// or 0 beyond the end of `bits`.
pub proof fn lemma_bit_of_packed_byte(bits: Seq<bool>, start: int, k: int)
    requires
        0 <= k < 8,
    ensures
        bit_of(byte_of_bits(bits, start), k) == (bitval(bits, start + k) == 1),
{
    lemma_byte_bits(
        byte_of_bits(bits, start),
        bitval(bits, start),
        bitval(bits, start + 1),
        bitval(bits, start + 2),
        bitval(bits, start + 3),
        bitval(bits, start + 4),
        bitval(bits, start + 5),
        bitval(bits, start + 6),
        bitval(bits, start + 7),
    );
}

/// Unpacking a packed bit sequence returns it unchanged, followed only by
/// the zero padding of the final partial byte.
pub proof fn lemma_unpack_pack(bits: Seq<bool>)
    ensures
        spec_unpack(spec_pack(bits)).len() == 8 * packed_len(bits.len()),
        bits.len() <= spec_unpack(spec_pack(bits)).len(),
        spec_unpack(spec_pack(bits)).take(bits.len() as int) == bits,
        forall|i: int|
            bits.len() <= i < spec_unpack(spec_pack(bits)).len() ==> !spec_unpack(spec_pack(bits))[i],
{
    let packed = spec_pack(bits);
    let un = spec_unpack(packed);
    assert forall|i: int| 0 <= i < 8 * packed_len(bits.len()) implies un[i] == (bitval(bits, i)
        == 1) by {
        assert(packed[i / 8] == byte_of_bits(bits, 8 * (i / 8)));
        lemma_bit_of_packed_byte(bits, 8 * (i / 8), i % 8);
        assert(8 * (i / 8) + i % 8 == i);
    }
    assert(un.take(bits.len() as int) =~= bits);
}

/// Packs a bit sequence into bytes, LSB first, zero-padding the final
/// partial byte.
pub fn pack_bits(bits: &Vec<bool>) -> (r: Vec<u8>)
    ensures
        r@ == spec_pack(bits@),
{
    let len = bits.len();
    let nbytes = len / 8 + if len % 8 != 0 {
        1usize
    } else {
        0usize
    };
    let mut out: Vec<u8> = Vec::new();
    let mut j: usize = 0;
    while j < nbytes
        invariant
            j <= nbytes,
            nbytes == packed_len(bits@.len()),
            len == bits@.len(),
            out@.len() == j,
            forall|k: int| 0 <= k < j ==> out@[k] == byte_of_bits(bits@, 8 * k),
        decreases nbytes - j,
    {
        let base = j * 8;
        proof {
            assert(8 * (j as int) <= len - 1);
        }
        let rem = len - base;
        let mut b: u8 = 0;
        if rem > 0 && bits[base] {
            b = b + 1;
        }
        if rem > 1 && bits[base + 1] {
            b = b + 2;
        }
        if rem > 2 && bits[base + 2] {
            b = b + 4;
        }
        if rem > 3 && bits[base + 3] {
            b = b + 8;
        }
        if rem > 4 && bits[base + 4] {
            b = b + 16;
        }
        if rem > 5 && bits[base + 5] {
            b = b + 32;
        }
        if rem > 6 && bits[base + 6] {
            b = b + 64;
        }
        if rem > 7 && bits[base + 7] {
            b = b + 128;
        }
        proof {
            assert(b == byte_of_bits(bits@, 8 * (j as int)));
        }
        out.push(b);
        j = j + 1;
    }
    proof {
        assert(out@ =~= spec_pack(bits@));
    }
    out
}

/// Unpacks every bit of `bytes`, LSB first within each byte.
pub fn unpack_bits(bytes: &[u8]) -> (r: Vec<bool>)
    ensures
        r@ == spec_unpack(bytes@),
{
    let mut out: Vec<bool> = Vec::new();
    let mut j: usize = 0;
    while j < bytes.len()
        invariant
            j <= bytes@.len(),
            out@.len() == 8 * j,
            forall|i: int| 0 <= i < out@.len() ==> out@[i] == bit_of(bytes@[i / 8], i % 8),
        decreases bytes@.len() - j,
    {
        let x = bytes[j];
        let mut k: u8 = 0;
        while k < 8
            invariant
                k <= 8,
                x == bytes@[j as int],
                j < bytes@.len(),
                out@.len() == 8 * j + k,
                forall|i: int| 0 <= i < out@.len() ==> out@[i] == bit_of(bytes@[i / 8], i % 8),
            decreases 8 - k,
        {
            out.push((x >> k) & 1 == 1);
            proof {
                let i = 8 * (j as int) + k as int;
                assert(i / 8 == j as int && i % 8 == k as int);
            }
            k = k + 1;
        }
        j = j + 1;
    }
    proof {
        assert(out@ =~= spec_unpack(bytes@));
    }
    out
}

// ---------------------------------------------------------------------------
// The symbol count field
// ---------------------------------------------------------------------------

/// The low `k` bytes of `n`, big-endian: most significant byte first.
pub open spec fn be_bytes(n: u64, k: nat) -> Seq<u8>
    decreases k,
{
    if k == 0 {
        Seq::empty()
    } else {
        be_bytes(n / 256, (k - 1) as nat).push((n % 256) as u8)
    }
}

pub proof fn lemma_be_bytes_len(n: u64, k: nat)
    ensures
        be_bytes(n, k).len() == k,
    decreases k,
{
    if k > 0 {
        lemma_be_bytes_len(n / 256, (k - 1) as nat);
    }
}

/// The value of a big-endian byte sequence.
pub open spec fn be_val(s: Seq<u8>) -> nat
    decreases s.len(),
{
    if s.len() == 0 {
        0
    } else {
        (be_val(s.drop_last()) * 256 + s.last()) as nat
    }
}

/// 256 to the power `k`.
pub open spec fn pow256(k: nat) -> nat
    decreases k,
{
    if k == 0 {
        1
    } else {
        256 * pow256((k - 1) as nat)
    }
}

/// Writing a value small enough for `k` bytes and reading it back returns it.
pub proof fn lemma_be_roundtrip(n: u64, k: nat)
    requires
        n < pow256(k),
    ensures
        be_val(be_bytes(n, k)) == n,
    decreases k,
{
    if k == 0 {
    } else {
        let rest = be_bytes(n / 256, (k - 1) as nat);
        assert(be_bytes(n, k).drop_last() =~= rest);
        assert(n / 256 < pow256((k - 1) as nat)) by {
            assert(pow256(k) == 256 * pow256((k - 1) as nat));
        }
        lemma_be_roundtrip(n / 256, (k - 1) as nat);
    }
}

/// Spells out the small powers of 256.
pub proof fn lemma_pow256_values()
    ensures
        pow256(7) == 0x100_0000_0000_0000,
        pow256(8) == 0x1_0000_0000_0000_0000,
{
    assert(pow256(0) == 1);
    assert(pow256(1) == 256);
    assert(pow256(2) == 0x1_0000);
    assert(pow256(3) == 0x100_0000);
    assert(pow256(4) == 0x1_0000_0000);
    assert(pow256(5) == 0x100_0000_0000);
    assert(pow256(6) == 0x1_0000_0000_0000);
    assert(pow256(7) == 0x100_0000_0000_0000);
    assert(pow256(8) == 0x1_0000_0000_0000_0000);
}

pub proof fn lemma_pow256_mono(k1: nat, k2: nat)
    requires
        k1 <= k2,
    ensures
        pow256(k1) <= pow256(k2),
    decreases k2,
{
    if k1 < k2 {
        lemma_pow256_mono(k1, (k2 - 1) as nat);
        assert(pow256(k2) == 256 * pow256((k2 - 1) as nat));
    }
}

/// Writes the low `k` bytes of `n`, big-endian.
pub fn be_bytes_exec(n: u64, k: usize) -> (r: Vec<u8>)
    requires
        k <= 8,
    ensures
        r@ == be_bytes(n, k as nat),
    decreases k,
{
    if k == 0 {
        Vec::new()
    } else {
        let mut r = be_bytes_exec(n / 256, k - 1);
        r.push((n % 256) as u8);
        r
    }
}

/// Reads an eight-byte big-endian value.
pub fn be_val_exec(bytes: &[u8]) -> (r: u64)
    requires
        bytes@.len() == 8,
    ensures
        r == be_val(bytes@),
{
    let mut acc: u64 = 0;
    let mut i: usize = 0;
    while i < 8
        invariant
            i <= 8,
            bytes@.len() == 8,
            acc == be_val(bytes@.take(i as int)),
            acc < pow256(i as nat),
        decreases 8 - i,
    {
        proof {
            lemma_pow256_le_8(i as nat);
            assert(bytes@.take(i + 1).drop_last() =~= bytes@.take(i as int));
            assert(bytes@.take(i + 1).last() == bytes@[i as int]);
        }
        acc = acc * 256 + (bytes[i] as u64);
        i = i + 1;
    }
    proof {
        assert(bytes@.take(8) =~= bytes@);
    }
    acc
}

proof fn lemma_pow256_le_8(k: nat)
    requires
        k < 8,
    ensures
        256 * pow256(k) <= 0x1_0000_0000_0000_0000,
{
    lemma_pow256_mono(k, 7);
    lemma_pow256_values();
}

} // verus!
