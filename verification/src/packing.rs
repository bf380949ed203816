//! Bits in bytes: the most significant bit of a byte comes first.
use vstd::prelude::*;

verus! {

/// Bit `i` of `byte`, counted from the most significant bit.
pub open spec fn bit_at(byte: u8, i: int) -> bool {
    (byte >> ((7 - i) as u8)) & 1 == 1
}

/// The value that a bit has at place `i` of a byte, counted from the most
/// significant bit.
pub open spec fn place_value(bit: bool, i: int) -> u8 {
    if bit {
        1u8 << ((7 - i) as u8)
    } else {
        0u8
    }
}

/// The byte whose bits, most significant first, are the first eight of `bits`.
pub open spec fn byte_of(bits: Seq<bool>) -> u8 {
    place_value(bits[0], 0) | place_value(bits[1], 1) | place_value(bits[2], 2) | place_value(
        bits[3],
        3,
    ) | place_value(bits[4], 4) | place_value(bits[5], 5) | place_value(bits[6], 6)
        | place_value(bits[7], 7)
}

/// The bits of `bytes`, eight for each byte, most significant first.
pub open spec fn unpack_bits(bytes: Seq<u8>) -> Seq<bool> {
    Seq::new(8 * bytes.len(), |k: int| bit_at(bytes[k / 8], k % 8))
}

/// The number of filler bits that bring `bit_count` bits to a whole number
/// of bytes.
pub open spec fn padding_of(bit_count: nat) -> nat {
    ((8 - bit_count % 8) % 8) as nat
}

/// `count` bits that are all 0.
pub open spec fn zeros(count: nat) -> Seq<bool> {
    Seq::new(count, |i: int| false)
}

/// The eight bits of `bits` that fill its byte number `k`.
pub open spec fn group(bits: Seq<bool>, k: int) -> Seq<bool> {
    bits.subrange(8 * k, 8 * k + 8)
}

/// The bytes that hold the whole groups of eight bits of `bits`; up to seven
/// last bits are left out.
pub open spec fn whole_bytes(bits: Seq<bool>) -> Seq<u8> {
    Seq::new((bits.len() / 8) as nat, |k: int| byte_of(group(bits, k)))
}

/// The bytes that hold `bits`, the last byte filled up with 0 bits.
pub open spec fn pack_bits(bits: Seq<bool>) -> Seq<u8> {
    whole_bytes(bits + zeros(padding_of(bits.len())))
}

/// Each bit of `byte_of(bits)` is the bit of `bits` at the same place.
pub proof fn lemma_byte_of_bits(bits: Seq<bool>)
    requires
        bits.len() >= 8,
    ensures
        forall|i: int| 0 <= i < 8 ==> bit_at(byte_of(bits), i) == bits[i],
{
    let v0 = place_value(bits[0], 0);
    let v1 = place_value(bits[1], 1);
    let v2 = place_value(bits[2], 2);
    let v3 = place_value(bits[3], 3);
    let v4 = place_value(bits[4], 4);
    let v5 = place_value(bits[5], 5);
    let v6 = place_value(bits[6], 6);
    let v7 = place_value(bits[7], 7);
    let b = byte_of(bits);
    assert(b == v0 | v1 | v2 | v3 | v4 | v5 | v6 | v7);
    assert(1u8 << 7u8 == 128 && 1u8 << 6u8 == 64 && 1u8 << 5u8 == 32 && 1u8 << 4u8 == 16 && 1u8
        << 3u8 == 8 && 1u8 << 2u8 == 4 && 1u8 << 1u8 == 2 && 1u8 << 0u8 == 1) by (bit_vector);
    assert(((b >> 7u8) & 1 == 1) == (v0 == 128) && ((b >> 6u8) & 1 == 1) == (v1 == 64) && ((b
        >> 5u8) & 1 == 1) == (v2 == 32) && ((b >> 4u8) & 1 == 1) == (v3 == 16) && ((b >> 3u8) & 1
        == 1) == (v4 == 8) && ((b >> 2u8) & 1 == 1) == (v5 == 4) && ((b >> 1u8) & 1 == 1) == (v6
        == 2) && ((b >> 0u8) & 1 == 1) == (v7 == 1)) by (bit_vector)
        requires
            b == v0 | v1 | v2 | v3 | v4 | v5 | v6 | v7,
            v0 == 0 || v0 == 128,
            v1 == 0 || v1 == 64,
            v2 == 0 || v2 == 32,
            v3 == 0 || v3 == 16,
            v4 == 0 || v4 == 8,
            v5 == 0 || v5 == 4,
            v6 == 0 || v6 == 2,
            v7 == 0 || v7 == 1,
    ;
    assert forall|i: int| 0 <= i < 8 implies bit_at(b, i) == bits[i] by {
        if i == 0 {
            assert(bit_at(b, 0) == (v0 == 128));
        } else if i == 1 {
            assert(bit_at(b, 1) == (v1 == 64));
        } else if i == 2 {
            assert(bit_at(b, 2) == (v2 == 32));
        } else if i == 3 {
            assert(bit_at(b, 3) == (v3 == 16));
        } else if i == 4 {
            assert(bit_at(b, 4) == (v4 == 8));
        } else if i == 5 {
            assert(bit_at(b, 5) == (v5 == 4));
        } else if i == 6 {
            assert(bit_at(b, 6) == (v6 == 2));
        } else {
            assert(bit_at(b, 7) == (v7 == 1));
        }
    }
}

/// Two bytes with the same bits are the same byte.
pub proof fn lemma_same_bits(a: u8, b: u8)
    requires
        forall|i: int| 0 <= i < 8 ==> bit_at(a, i) == bit_at(b, i),
    ensures
        a == b,
{
    assert(bit_at(a, 0) == bit_at(b, 0));
    assert(bit_at(a, 1) == bit_at(b, 1));
    assert(bit_at(a, 2) == bit_at(b, 2));
    assert(bit_at(a, 3) == bit_at(b, 3));
    assert(bit_at(a, 4) == bit_at(b, 4));
    assert(bit_at(a, 5) == bit_at(b, 5));
    assert(bit_at(a, 6) == bit_at(b, 6));
    assert(bit_at(a, 7) == bit_at(b, 7));
    assert(a == b) by (bit_vector)
        requires
            ((a >> 7u8) & 1 == 1) == ((b >> 7u8) & 1 == 1),
            ((a >> 6u8) & 1 == 1) == ((b >> 6u8) & 1 == 1),
            ((a >> 5u8) & 1 == 1) == ((b >> 5u8) & 1 == 1),
            ((a >> 4u8) & 1 == 1) == ((b >> 4u8) & 1 == 1),
            ((a >> 3u8) & 1 == 1) == ((b >> 3u8) & 1 == 1),
            ((a >> 2u8) & 1 == 1) == ((b >> 2u8) & 1 == 1),
            ((a >> 1u8) & 1 == 1) == ((b >> 1u8) & 1 == 1),
            ((a >> 0u8) & 1 == 1) == ((b >> 0u8) & 1 == 1),
    ;
}

/// The padding is less than eight bits, fills the last byte, and is absent
/// exactly when the bits already fill whole bytes.
pub proof fn lemma_padding(bit_count: nat)
    ensures
        padding_of(bit_count) <= 7,
        (bit_count + padding_of(bit_count)) % 8 == 0,
        padding_of(bit_count) == 0 <==> bit_count % 8 == 0,
{
}

/// Unpacking the whole bytes of `bits` gives back the bits that they hold.
pub proof fn lemma_unpack_whole(bits: Seq<bool>)
    ensures
        whole_bytes(bits).len() == bits.len() / 8,
        unpack_bits(whole_bytes(bits)) == bits.take(8 * (bits.len() / 8) as int),
{
    let bytes = whole_bytes(bits);
    let kept = bits.take(8 * (bits.len() / 8) as int);
    assert forall|k: int| 0 <= k < kept.len() implies unpack_bits(bytes)[k] == kept[k] by {
        let eight = group(bits, k / 8);
        lemma_byte_of_bits(eight);
        assert(bytes[k / 8] == byte_of(eight));
        assert(eight[k % 8] == bits[k]);
    }
    assert(unpack_bits(bytes) =~= kept);
}

/// Unpacking the packed bytes and dropping the padding gives back the bits.
pub proof fn lemma_unpack_pack(bits: Seq<bool>)
    ensures
        pack_bits(bits).len() * 8 == bits.len() + padding_of(bits.len()),
        unpack_bits(pack_bits(bits)) == bits + zeros(padding_of(bits.len())),
        unpack_bits(pack_bits(bits)).take(8 * pack_bits(bits).len() - padding_of(bits.len()))
            == bits,
{
    let padded = bits + zeros(padding_of(bits.len()));
    lemma_padding(bits.len());
    lemma_unpack_whole(padded);
    assert(padded.take(8 * (padded.len() / 8) as int) == padded);
    assert(padded.take(bits.len() as int) == bits);
}

} // verus!
