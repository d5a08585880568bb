//! Bytes as eight bits, most significant bit first, and the arithmetic of
//! GF(2^8) that AES uses.

use vstd::prelude::*;

verus! {

/// The byte with the bits `b0` (most significant) to `b7` (least significant).
#[verifier::opaque]
pub open spec fn pack(b0: bool, b1: bool, b2: bool, b3: bool, b4: bool, b5: bool, b6: bool, b7: bool) -> u8 {
    ((if b0 { 128int } else { 0int }) + (if b1 { 64int } else { 0int }) + (if b2 { 32int } else { 0int }) + (if b3 {
        16int
    } else {
        0int
    }) + (if b4 { 8int } else { 0int }) + (if b5 { 4int } else { 0int }) + (if b6 { 2int } else { 0int }) + (if b7 {
        1int
    } else {
        0int
    })) as u8
}

/// The byte whose bits are the eight entries of `bits`, most significant first.
pub open spec fn pack_seq(bits: Seq<bool>) -> u8 {
    pack(bits[0], bits[1], bits[2], bits[3], bits[4], bits[5], bits[6], bits[7])
}

/// Bit `i` of a byte, counted from the most significant bit.
pub open spec fn bit_at(b: u8, i: int) -> bool {
    if i == 0 {
        b & 0x80 != 0
    } else if i == 1 {
        b & 0x40 != 0
    } else if i == 2 {
        b & 0x20 != 0
    } else if i == 3 {
        b & 0x10 != 0
    } else if i == 4 {
        b & 0x08 != 0
    } else if i == 5 {
        b & 0x04 != 0
    } else if i == 6 {
        b & 0x02 != 0
    } else {
        b & 0x01 != 0
    }
}

/// The eight bits of a byte, most significant first.
pub open spec fn bits_of(b: u8) -> Seq<bool> {
    Seq::new(8, |i: int| bit_at(b, i))
}

/// Multiplication by `x` in GF(2^8) modulo the AES polynomial: a shift to the
/// left, and 0x1b added where the most significant bit was set.
pub open spec fn xtime(b: u8) -> u8 {
    if b & 0x80 != 0 {
        (b << 1) ^ 0x1b
    } else {
        b << 1
    }
}

/// `b` shifted left by `n` places, zeros coming in; nothing is left from 8 places on.
pub open spec fn shl(b: u8, n: nat) -> u8 {
    if n == 0 {
        b
    } else if n == 1 {
        b << 1
    } else if n == 2 {
        b << 2
    } else if n == 3 {
        b << 3
    } else if n == 4 {
        b << 4
    } else if n == 5 {
        b << 5
    } else if n == 6 {
        b << 6
    } else if n == 7 {
        b << 7
    } else {
        0
    }
}

/// `b` shifted right by `n` places, zeros coming in; nothing is left from 8 places on.
pub open spec fn shr(b: u8, n: nat) -> u8 {
    if n == 0 {
        b
    } else if n == 1 {
        b >> 1
    } else if n == 2 {
        b >> 2
    } else if n == 3 {
        b >> 3
    } else if n == 4 {
        b >> 4
    } else if n == 5 {
        b >> 5
    } else if n == 6 {
        b >> 6
    } else if n == 7 {
        b >> 7
    } else {
        0
    }
}

/// `b` rotated left by `n` places.
pub open spec fn rotl(b: u8, n: nat) -> u8 {
    if n % 8 == 0 {
        b
    } else if n % 8 == 1 {
        (b << 1) | (b >> 7)
    } else if n % 8 == 2 {
        (b << 2) | (b >> 6)
    } else if n % 8 == 3 {
        (b << 3) | (b >> 5)
    } else if n % 8 == 4 {
        (b << 4) | (b >> 4)
    } else if n % 8 == 5 {
        (b << 5) | (b >> 3)
    } else if n % 8 == 6 {
        (b << 6) | (b >> 2)
    } else if n % 8 == 7 {
        (b << 7) | (b >> 1)
    } else {
        b
    }
}

/// `b` rotated right by `n` places.
pub open spec fn rotr(b: u8, n: nat) -> u8 {
    if n % 8 == 0 {
        b
    } else if n % 8 == 1 {
        (b >> 1) | (b << 7)
    } else if n % 8 == 2 {
        (b >> 2) | (b << 6)
    } else if n % 8 == 3 {
        (b >> 3) | (b << 5)
    } else if n % 8 == 4 {
        (b >> 4) | (b << 4)
    } else if n % 8 == 5 {
        (b >> 5) | (b << 3)
    } else if n % 8 == 6 {
        (b >> 6) | (b << 2)
    } else if n % 8 == 7 {
        (b >> 7) | (b << 1)
    } else {
        b
    }
}

/// The bitwise operators under each of the eight masks.
proof fn lemma_mask_ops(a: u8, b: u8)
    by (bit_vector)
    ensures
        ((a ^ b) & 0x80 != 0) == ((a & 0x80 != 0) != (b & 0x80 != 0)),
        ((a & b) & 0x80 != 0) == ((a & 0x80 != 0) && (b & 0x80 != 0)),
        ((a | b) & 0x80 != 0) == ((a & 0x80 != 0) || (b & 0x80 != 0)),
        ((!a) & 0x80 != 0) == !(a & 0x80 != 0),
        ((a ^ b) & 0x40 != 0) == ((a & 0x40 != 0) != (b & 0x40 != 0)),
        ((a & b) & 0x40 != 0) == ((a & 0x40 != 0) && (b & 0x40 != 0)),
        ((a | b) & 0x40 != 0) == ((a & 0x40 != 0) || (b & 0x40 != 0)),
        ((!a) & 0x40 != 0) == !(a & 0x40 != 0),
        ((a ^ b) & 0x20 != 0) == ((a & 0x20 != 0) != (b & 0x20 != 0)),
        ((a & b) & 0x20 != 0) == ((a & 0x20 != 0) && (b & 0x20 != 0)),
        ((a | b) & 0x20 != 0) == ((a & 0x20 != 0) || (b & 0x20 != 0)),
        ((!a) & 0x20 != 0) == !(a & 0x20 != 0),
        ((a ^ b) & 0x10 != 0) == ((a & 0x10 != 0) != (b & 0x10 != 0)),
        ((a & b) & 0x10 != 0) == ((a & 0x10 != 0) && (b & 0x10 != 0)),
        ((a | b) & 0x10 != 0) == ((a & 0x10 != 0) || (b & 0x10 != 0)),
        ((!a) & 0x10 != 0) == !(a & 0x10 != 0),
        ((a ^ b) & 0x08 != 0) == ((a & 0x08 != 0) != (b & 0x08 != 0)),
        ((a & b) & 0x08 != 0) == ((a & 0x08 != 0) && (b & 0x08 != 0)),
        ((a | b) & 0x08 != 0) == ((a & 0x08 != 0) || (b & 0x08 != 0)),
        ((!a) & 0x08 != 0) == !(a & 0x08 != 0),
        ((a ^ b) & 0x04 != 0) == ((a & 0x04 != 0) != (b & 0x04 != 0)),
        ((a & b) & 0x04 != 0) == ((a & 0x04 != 0) && (b & 0x04 != 0)),
        ((a | b) & 0x04 != 0) == ((a & 0x04 != 0) || (b & 0x04 != 0)),
        ((!a) & 0x04 != 0) == !(a & 0x04 != 0),
        ((a ^ b) & 0x02 != 0) == ((a & 0x02 != 0) != (b & 0x02 != 0)),
        ((a & b) & 0x02 != 0) == ((a & 0x02 != 0) && (b & 0x02 != 0)),
        ((a | b) & 0x02 != 0) == ((a & 0x02 != 0) || (b & 0x02 != 0)),
        ((!a) & 0x02 != 0) == !(a & 0x02 != 0),
        ((a ^ b) & 0x01 != 0) == ((a & 0x01 != 0) != (b & 0x01 != 0)),
        ((a & b) & 0x01 != 0) == ((a & 0x01 != 0) && (b & 0x01 != 0)),
        ((a | b) & 0x01 != 0) == ((a & 0x01 != 0) || (b & 0x01 != 0)),
        ((!a) & 0x01 != 0) == !(a & 0x01 != 0),
{
}

/// Bytes that agree under each of the eight masks are equal.
proof fn lemma_mask_equal(a: u8, b: u8)
    by (bit_vector)
    requires
        (a & 0x80 != 0) == (b & 0x80 != 0),
        (a & 0x40 != 0) == (b & 0x40 != 0),
        (a & 0x20 != 0) == (b & 0x20 != 0),
        (a & 0x10 != 0) == (b & 0x10 != 0),
        (a & 0x08 != 0) == (b & 0x08 != 0),
        (a & 0x04 != 0) == (b & 0x04 != 0),
        (a & 0x02 != 0) == (b & 0x02 != 0),
        (a & 0x01 != 0) == (b & 0x01 != 0),
    ensures
        a == b,
{
}

/// The bitwise operators act on every bit of a byte by itself.
pub proof fn lemma_byte_ops(a: u8, b: u8)
    ensures
        forall|i: int| 0 <= i < 8 ==> #[trigger] bit_at(a ^ b, i) == (bit_at(a, i) != bit_at(b, i)),
        forall|i: int| 0 <= i < 8 ==> #[trigger] bit_at(a & b, i) == (bit_at(a, i) && bit_at(b, i)),
        forall|i: int| 0 <= i < 8 ==> #[trigger] bit_at(a | b, i) == (bit_at(a, i) || bit_at(b, i)),
        forall|i: int| 0 <= i < 8 ==> #[trigger] bit_at(!a, i) == !bit_at(a, i),
{
    lemma_mask_ops(a, b);
}

/// Two bytes with the same eight bits are equal.
pub proof fn lemma_bytes_equal(a: u8, b: u8)
    requires
        forall|i: int| 0 <= i < 8 ==> bit_at(a, i) == bit_at(b, i),
    ensures
        a == b,
{
    assert(bit_at(a, 0) == bit_at(b, 0));
    assert(bit_at(a, 1) == bit_at(b, 1));
    assert(bit_at(a, 2) == bit_at(b, 2));
    assert(bit_at(a, 3) == bit_at(b, 3));
    assert(bit_at(a, 4) == bit_at(b, 4));
    assert(bit_at(a, 5) == bit_at(b, 5));
    assert(bit_at(a, 6) == bit_at(b, 6));
    assert(bit_at(a, 7) == bit_at(b, 7));
    lemma_mask_equal(a, b);
}

/// Bit `i` of the byte of eight bits is entry `i`.
pub proof fn lemma_value_bits(bits: Seq<bool>)
    requires
        bits.len() == 8,
    ensures
        forall|i: int| 0 <= i < 8 ==> #[trigger] bit_at(pack_seq(bits), i) == bits[i],
        bits_of(pack_seq(bits)) == bits,
{
    lemma_bits_pack(bits[0], bits[1], bits[2], bits[3], bits[4], bits[5], bits[6], bits[7]);
    assert(bits_of(pack_seq(bits)) =~= bits);
}

/// A byte is the byte of its own bits, and of no other eight bits.
pub proof fn lemma_pack_unique(v: u8, bits: Seq<bool>)
    requires
        bits.len() == 8,
        forall|i: int| 0 <= i < 8 ==> bit_at(v, i) == bits[i],
    ensures
        pack_seq(bits) == v,
{
    lemma_value_bits(bits);
    lemma_bytes_equal(pack_seq(bits), v);
}

/// Packing the bits of a byte gives the byte back.
pub proof fn lemma_pack_bits(b: u8)
    by (bit_vector)
    ensures
        pack(
            b & 0x80 != 0, b & 0x40 != 0, b & 0x20 != 0, b & 0x10 != 0,
            b & 0x08 != 0, b & 0x04 != 0, b & 0x02 != 0, b & 0x01 != 0,
        ) == b,
{
}

/// The bits of a packed byte are the bits that were packed.
pub proof fn lemma_bits_pack(a0: bool, a1: bool, a2: bool, a3: bool, a4: bool, a5: bool, a6: bool, a7: bool)
    by (bit_vector)
    ensures
        (pack(a0, a1, a2, a3, a4, a5, a6, a7) & 0x80 != 0) == a0,
        (pack(a0, a1, a2, a3, a4, a5, a6, a7) & 0x40 != 0) == a1,
        (pack(a0, a1, a2, a3, a4, a5, a6, a7) & 0x20 != 0) == a2,
        (pack(a0, a1, a2, a3, a4, a5, a6, a7) & 0x10 != 0) == a3,
        (pack(a0, a1, a2, a3, a4, a5, a6, a7) & 0x08 != 0) == a4,
        (pack(a0, a1, a2, a3, a4, a5, a6, a7) & 0x04 != 0) == a5,
        (pack(a0, a1, a2, a3, a4, a5, a6, a7) & 0x02 != 0) == a6,
        (pack(a0, a1, a2, a3, a4, a5, a6, a7) & 0x01 != 0) == a7,
{
}

/// The product by `x` under each of the eight masks.
proof fn lemma_mask_xtime(v: u8)
    by (bit_vector)
    ensures
        (xtime(v) & 0x80 != 0) == (v & 0x40 != 0),
        (xtime(v) & 0x40 != 0) == (v & 0x20 != 0),
        (xtime(v) & 0x20 != 0) == (v & 0x10 != 0),
        (xtime(v) & 0x10 != 0) == ((v & 0x08 != 0) != (v & 0x80 != 0)),
        (xtime(v) & 0x08 != 0) == ((v & 0x04 != 0) != (v & 0x80 != 0)),
        (xtime(v) & 0x04 != 0) == (v & 0x02 != 0),
        (xtime(v) & 0x02 != 0) == ((v & 0x01 != 0) != (v & 0x80 != 0)),
        (xtime(v) & 0x01 != 0) == (false != (v & 0x80 != 0)),
{
}

/// The bits of the product by `x`: the byte shifted left, with its former
/// most significant bit added at the places of 0x1b.
pub proof fn lemma_byte_xtime(v: u8)
    ensures
        forall|i: int|
            0 <= i < 8 ==> #[trigger] bit_at(xtime(v), i) == ((if i < 7 {
                bit_at(v, i + 1)
            } else {
                false
            }) != (bit_at(v, 0) && bit_at(0x1b, i))),
{
    lemma_mask_xtime(v);
    assert(bit_at(0x1b, 0) == false && bit_at(0x1b, 1) == false && bit_at(0x1b, 2) == false && bit_at(0x1b, 3)
        == true && bit_at(0x1b, 4) == true && bit_at(0x1b, 5) == false && bit_at(0x1b, 6) == true && bit_at(
        0x1b,
        7,
    ) == true) by (bit_vector);
}


/// The rotations to the left under each of the eight masks.
proof fn lemma_mask_rotl(v: u8)
    by (bit_vector)
    ensures
        (((v << 1) | (v >> 7)) & 0x80 != 0) == (v & 0x40 != 0),
        (((v << 1) | (v >> 7)) & 0x40 != 0) == (v & 0x20 != 0),
        (((v << 1) | (v >> 7)) & 0x20 != 0) == (v & 0x10 != 0),
        (((v << 1) | (v >> 7)) & 0x10 != 0) == (v & 0x08 != 0),
        (((v << 1) | (v >> 7)) & 0x08 != 0) == (v & 0x04 != 0),
        (((v << 1) | (v >> 7)) & 0x04 != 0) == (v & 0x02 != 0),
        (((v << 1) | (v >> 7)) & 0x02 != 0) == (v & 0x01 != 0),
        (((v << 1) | (v >> 7)) & 0x01 != 0) == (v & 0x80 != 0),
        (((v << 2) | (v >> 6)) & 0x80 != 0) == (v & 0x20 != 0),
        (((v << 2) | (v >> 6)) & 0x40 != 0) == (v & 0x10 != 0),
        (((v << 2) | (v >> 6)) & 0x20 != 0) == (v & 0x08 != 0),
        (((v << 2) | (v >> 6)) & 0x10 != 0) == (v & 0x04 != 0),
        (((v << 2) | (v >> 6)) & 0x08 != 0) == (v & 0x02 != 0),
        (((v << 2) | (v >> 6)) & 0x04 != 0) == (v & 0x01 != 0),
        (((v << 2) | (v >> 6)) & 0x02 != 0) == (v & 0x80 != 0),
        (((v << 2) | (v >> 6)) & 0x01 != 0) == (v & 0x40 != 0),
        (((v << 3) | (v >> 5)) & 0x80 != 0) == (v & 0x10 != 0),
        (((v << 3) | (v >> 5)) & 0x40 != 0) == (v & 0x08 != 0),
        (((v << 3) | (v >> 5)) & 0x20 != 0) == (v & 0x04 != 0),
        (((v << 3) | (v >> 5)) & 0x10 != 0) == (v & 0x02 != 0),
        (((v << 3) | (v >> 5)) & 0x08 != 0) == (v & 0x01 != 0),
        (((v << 3) | (v >> 5)) & 0x04 != 0) == (v & 0x80 != 0),
        (((v << 3) | (v >> 5)) & 0x02 != 0) == (v & 0x40 != 0),
        (((v << 3) | (v >> 5)) & 0x01 != 0) == (v & 0x20 != 0),
        (((v << 4) | (v >> 4)) & 0x80 != 0) == (v & 0x08 != 0),
        (((v << 4) | (v >> 4)) & 0x40 != 0) == (v & 0x04 != 0),
        (((v << 4) | (v >> 4)) & 0x20 != 0) == (v & 0x02 != 0),
        (((v << 4) | (v >> 4)) & 0x10 != 0) == (v & 0x01 != 0),
        (((v << 4) | (v >> 4)) & 0x08 != 0) == (v & 0x80 != 0),
        (((v << 4) | (v >> 4)) & 0x04 != 0) == (v & 0x40 != 0),
        (((v << 4) | (v >> 4)) & 0x02 != 0) == (v & 0x20 != 0),
        (((v << 4) | (v >> 4)) & 0x01 != 0) == (v & 0x10 != 0),
        (((v << 5) | (v >> 3)) & 0x80 != 0) == (v & 0x04 != 0),
        (((v << 5) | (v >> 3)) & 0x40 != 0) == (v & 0x02 != 0),
        (((v << 5) | (v >> 3)) & 0x20 != 0) == (v & 0x01 != 0),
        (((v << 5) | (v >> 3)) & 0x10 != 0) == (v & 0x80 != 0),
        (((v << 5) | (v >> 3)) & 0x08 != 0) == (v & 0x40 != 0),
        (((v << 5) | (v >> 3)) & 0x04 != 0) == (v & 0x20 != 0),
        (((v << 5) | (v >> 3)) & 0x02 != 0) == (v & 0x10 != 0),
        (((v << 5) | (v >> 3)) & 0x01 != 0) == (v & 0x08 != 0),
        (((v << 6) | (v >> 2)) & 0x80 != 0) == (v & 0x02 != 0),
        (((v << 6) | (v >> 2)) & 0x40 != 0) == (v & 0x01 != 0),
        (((v << 6) | (v >> 2)) & 0x20 != 0) == (v & 0x80 != 0),
        (((v << 6) | (v >> 2)) & 0x10 != 0) == (v & 0x40 != 0),
        (((v << 6) | (v >> 2)) & 0x08 != 0) == (v & 0x20 != 0),
        (((v << 6) | (v >> 2)) & 0x04 != 0) == (v & 0x10 != 0),
        (((v << 6) | (v >> 2)) & 0x02 != 0) == (v & 0x08 != 0),
        (((v << 6) | (v >> 2)) & 0x01 != 0) == (v & 0x04 != 0),
        (((v << 7) | (v >> 1)) & 0x80 != 0) == (v & 0x01 != 0),
        (((v << 7) | (v >> 1)) & 0x40 != 0) == (v & 0x80 != 0),
        (((v << 7) | (v >> 1)) & 0x20 != 0) == (v & 0x40 != 0),
        (((v << 7) | (v >> 1)) & 0x10 != 0) == (v & 0x20 != 0),
        (((v << 7) | (v >> 1)) & 0x08 != 0) == (v & 0x10 != 0),
        (((v << 7) | (v >> 1)) & 0x04 != 0) == (v & 0x08 != 0),
        (((v << 7) | (v >> 1)) & 0x02 != 0) == (v & 0x04 != 0),
        (((v << 7) | (v >> 1)) & 0x01 != 0) == (v & 0x02 != 0),
{
}

/// The rotations to the right under each of the eight masks.
proof fn lemma_mask_rotr(v: u8)
    by (bit_vector)
    ensures
        (((v >> 1) | (v << 7)) & 0x80 != 0) == (v & 0x01 != 0),
        (((v >> 1) | (v << 7)) & 0x40 != 0) == (v & 0x80 != 0),
        (((v >> 1) | (v << 7)) & 0x20 != 0) == (v & 0x40 != 0),
        (((v >> 1) | (v << 7)) & 0x10 != 0) == (v & 0x20 != 0),
        (((v >> 1) | (v << 7)) & 0x08 != 0) == (v & 0x10 != 0),
        (((v >> 1) | (v << 7)) & 0x04 != 0) == (v & 0x08 != 0),
        (((v >> 1) | (v << 7)) & 0x02 != 0) == (v & 0x04 != 0),
        (((v >> 1) | (v << 7)) & 0x01 != 0) == (v & 0x02 != 0),
        (((v >> 2) | (v << 6)) & 0x80 != 0) == (v & 0x02 != 0),
        (((v >> 2) | (v << 6)) & 0x40 != 0) == (v & 0x01 != 0),
        (((v >> 2) | (v << 6)) & 0x20 != 0) == (v & 0x80 != 0),
        (((v >> 2) | (v << 6)) & 0x10 != 0) == (v & 0x40 != 0),
        (((v >> 2) | (v << 6)) & 0x08 != 0) == (v & 0x20 != 0),
        (((v >> 2) | (v << 6)) & 0x04 != 0) == (v & 0x10 != 0),
        (((v >> 2) | (v << 6)) & 0x02 != 0) == (v & 0x08 != 0),
        (((v >> 2) | (v << 6)) & 0x01 != 0) == (v & 0x04 != 0),
        (((v >> 3) | (v << 5)) & 0x80 != 0) == (v & 0x04 != 0),
        (((v >> 3) | (v << 5)) & 0x40 != 0) == (v & 0x02 != 0),
        (((v >> 3) | (v << 5)) & 0x20 != 0) == (v & 0x01 != 0),
        (((v >> 3) | (v << 5)) & 0x10 != 0) == (v & 0x80 != 0),
        (((v >> 3) | (v << 5)) & 0x08 != 0) == (v & 0x40 != 0),
        (((v >> 3) | (v << 5)) & 0x04 != 0) == (v & 0x20 != 0),
        (((v >> 3) | (v << 5)) & 0x02 != 0) == (v & 0x10 != 0),
        (((v >> 3) | (v << 5)) & 0x01 != 0) == (v & 0x08 != 0),
        (((v >> 4) | (v << 4)) & 0x80 != 0) == (v & 0x08 != 0),
        (((v >> 4) | (v << 4)) & 0x40 != 0) == (v & 0x04 != 0),
        (((v >> 4) | (v << 4)) & 0x20 != 0) == (v & 0x02 != 0),
        (((v >> 4) | (v << 4)) & 0x10 != 0) == (v & 0x01 != 0),
        (((v >> 4) | (v << 4)) & 0x08 != 0) == (v & 0x80 != 0),
        (((v >> 4) | (v << 4)) & 0x04 != 0) == (v & 0x40 != 0),
        (((v >> 4) | (v << 4)) & 0x02 != 0) == (v & 0x20 != 0),
        (((v >> 4) | (v << 4)) & 0x01 != 0) == (v & 0x10 != 0),
        (((v >> 5) | (v << 3)) & 0x80 != 0) == (v & 0x10 != 0),
        (((v >> 5) | (v << 3)) & 0x40 != 0) == (v & 0x08 != 0),
        (((v >> 5) | (v << 3)) & 0x20 != 0) == (v & 0x04 != 0),
        (((v >> 5) | (v << 3)) & 0x10 != 0) == (v & 0x02 != 0),
        (((v >> 5) | (v << 3)) & 0x08 != 0) == (v & 0x01 != 0),
        (((v >> 5) | (v << 3)) & 0x04 != 0) == (v & 0x80 != 0),
        (((v >> 5) | (v << 3)) & 0x02 != 0) == (v & 0x40 != 0),
        (((v >> 5) | (v << 3)) & 0x01 != 0) == (v & 0x20 != 0),
        (((v >> 6) | (v << 2)) & 0x80 != 0) == (v & 0x20 != 0),
        (((v >> 6) | (v << 2)) & 0x40 != 0) == (v & 0x10 != 0),
        (((v >> 6) | (v << 2)) & 0x20 != 0) == (v & 0x08 != 0),
        (((v >> 6) | (v << 2)) & 0x10 != 0) == (v & 0x04 != 0),
        (((v >> 6) | (v << 2)) & 0x08 != 0) == (v & 0x02 != 0),
        (((v >> 6) | (v << 2)) & 0x04 != 0) == (v & 0x01 != 0),
        (((v >> 6) | (v << 2)) & 0x02 != 0) == (v & 0x80 != 0),
        (((v >> 6) | (v << 2)) & 0x01 != 0) == (v & 0x40 != 0),
        (((v >> 7) | (v << 1)) & 0x80 != 0) == (v & 0x40 != 0),
        (((v >> 7) | (v << 1)) & 0x40 != 0) == (v & 0x20 != 0),
        (((v >> 7) | (v << 1)) & 0x20 != 0) == (v & 0x10 != 0),
        (((v >> 7) | (v << 1)) & 0x10 != 0) == (v & 0x08 != 0),
        (((v >> 7) | (v << 1)) & 0x08 != 0) == (v & 0x04 != 0),
        (((v >> 7) | (v << 1)) & 0x04 != 0) == (v & 0x02 != 0),
        (((v >> 7) | (v << 1)) & 0x02 != 0) == (v & 0x01 != 0),
        (((v >> 7) | (v << 1)) & 0x01 != 0) == (v & 0x80 != 0),
{
}

/// The shifts to the left under each of the eight masks.
proof fn lemma_mask_shl(v: u8)
    by (bit_vector)
    ensures
        ((v << 1) & 0x80 != 0) == (v & 0x40 != 0),
        ((v << 1) & 0x40 != 0) == (v & 0x20 != 0),
        ((v << 1) & 0x20 != 0) == (v & 0x10 != 0),
        ((v << 1) & 0x10 != 0) == (v & 0x08 != 0),
        ((v << 1) & 0x08 != 0) == (v & 0x04 != 0),
        ((v << 1) & 0x04 != 0) == (v & 0x02 != 0),
        ((v << 1) & 0x02 != 0) == (v & 0x01 != 0),
        ((v << 1) & 0x01 != 0) == false,
        ((v << 2) & 0x80 != 0) == (v & 0x20 != 0),
        ((v << 2) & 0x40 != 0) == (v & 0x10 != 0),
        ((v << 2) & 0x20 != 0) == (v & 0x08 != 0),
        ((v << 2) & 0x10 != 0) == (v & 0x04 != 0),
        ((v << 2) & 0x08 != 0) == (v & 0x02 != 0),
        ((v << 2) & 0x04 != 0) == (v & 0x01 != 0),
        ((v << 2) & 0x02 != 0) == false,
        ((v << 2) & 0x01 != 0) == false,
        ((v << 3) & 0x80 != 0) == (v & 0x10 != 0),
        ((v << 3) & 0x40 != 0) == (v & 0x08 != 0),
        ((v << 3) & 0x20 != 0) == (v & 0x04 != 0),
        ((v << 3) & 0x10 != 0) == (v & 0x02 != 0),
        ((v << 3) & 0x08 != 0) == (v & 0x01 != 0),
        ((v << 3) & 0x04 != 0) == false,
        ((v << 3) & 0x02 != 0) == false,
        ((v << 3) & 0x01 != 0) == false,
        ((v << 4) & 0x80 != 0) == (v & 0x08 != 0),
        ((v << 4) & 0x40 != 0) == (v & 0x04 != 0),
        ((v << 4) & 0x20 != 0) == (v & 0x02 != 0),
        ((v << 4) & 0x10 != 0) == (v & 0x01 != 0),
        ((v << 4) & 0x08 != 0) == false,
        ((v << 4) & 0x04 != 0) == false,
        ((v << 4) & 0x02 != 0) == false,
        ((v << 4) & 0x01 != 0) == false,
        ((v << 5) & 0x80 != 0) == (v & 0x04 != 0),
        ((v << 5) & 0x40 != 0) == (v & 0x02 != 0),
        ((v << 5) & 0x20 != 0) == (v & 0x01 != 0),
        ((v << 5) & 0x10 != 0) == false,
        ((v << 5) & 0x08 != 0) == false,
        ((v << 5) & 0x04 != 0) == false,
        ((v << 5) & 0x02 != 0) == false,
        ((v << 5) & 0x01 != 0) == false,
        ((v << 6) & 0x80 != 0) == (v & 0x02 != 0),
        ((v << 6) & 0x40 != 0) == (v & 0x01 != 0),
        ((v << 6) & 0x20 != 0) == false,
        ((v << 6) & 0x10 != 0) == false,
        ((v << 6) & 0x08 != 0) == false,
        ((v << 6) & 0x04 != 0) == false,
        ((v << 6) & 0x02 != 0) == false,
        ((v << 6) & 0x01 != 0) == false,
        ((v << 7) & 0x80 != 0) == (v & 0x01 != 0),
        ((v << 7) & 0x40 != 0) == false,
        ((v << 7) & 0x20 != 0) == false,
        ((v << 7) & 0x10 != 0) == false,
        ((v << 7) & 0x08 != 0) == false,
        ((v << 7) & 0x04 != 0) == false,
        ((v << 7) & 0x02 != 0) == false,
        ((v << 7) & 0x01 != 0) == false,
{
}

/// The shifts to the right under each of the eight masks.
proof fn lemma_mask_shr(v: u8)
    by (bit_vector)
    ensures
        ((v >> 1) & 0x80 != 0) == false,
        ((v >> 1) & 0x40 != 0) == (v & 0x80 != 0),
        ((v >> 1) & 0x20 != 0) == (v & 0x40 != 0),
        ((v >> 1) & 0x10 != 0) == (v & 0x20 != 0),
        ((v >> 1) & 0x08 != 0) == (v & 0x10 != 0),
        ((v >> 1) & 0x04 != 0) == (v & 0x08 != 0),
        ((v >> 1) & 0x02 != 0) == (v & 0x04 != 0),
        ((v >> 1) & 0x01 != 0) == (v & 0x02 != 0),
        ((v >> 2) & 0x80 != 0) == false,
        ((v >> 2) & 0x40 != 0) == false,
        ((v >> 2) & 0x20 != 0) == (v & 0x80 != 0),
        ((v >> 2) & 0x10 != 0) == (v & 0x40 != 0),
        ((v >> 2) & 0x08 != 0) == (v & 0x20 != 0),
        ((v >> 2) & 0x04 != 0) == (v & 0x10 != 0),
        ((v >> 2) & 0x02 != 0) == (v & 0x08 != 0),
        ((v >> 2) & 0x01 != 0) == (v & 0x04 != 0),
        ((v >> 3) & 0x80 != 0) == false,
        ((v >> 3) & 0x40 != 0) == false,
        ((v >> 3) & 0x20 != 0) == false,
        ((v >> 3) & 0x10 != 0) == (v & 0x80 != 0),
        ((v >> 3) & 0x08 != 0) == (v & 0x40 != 0),
        ((v >> 3) & 0x04 != 0) == (v & 0x20 != 0),
        ((v >> 3) & 0x02 != 0) == (v & 0x10 != 0),
        ((v >> 3) & 0x01 != 0) == (v & 0x08 != 0),
        ((v >> 4) & 0x80 != 0) == false,
        ((v >> 4) & 0x40 != 0) == false,
        ((v >> 4) & 0x20 != 0) == false,
        ((v >> 4) & 0x10 != 0) == false,
        ((v >> 4) & 0x08 != 0) == (v & 0x80 != 0),
        ((v >> 4) & 0x04 != 0) == (v & 0x40 != 0),
        ((v >> 4) & 0x02 != 0) == (v & 0x20 != 0),
        ((v >> 4) & 0x01 != 0) == (v & 0x10 != 0),
        ((v >> 5) & 0x80 != 0) == false,
        ((v >> 5) & 0x40 != 0) == false,
        ((v >> 5) & 0x20 != 0) == false,
        ((v >> 5) & 0x10 != 0) == false,
        ((v >> 5) & 0x08 != 0) == false,
        ((v >> 5) & 0x04 != 0) == (v & 0x80 != 0),
        ((v >> 5) & 0x02 != 0) == (v & 0x40 != 0),
        ((v >> 5) & 0x01 != 0) == (v & 0x20 != 0),
        ((v >> 6) & 0x80 != 0) == false,
        ((v >> 6) & 0x40 != 0) == false,
        ((v >> 6) & 0x20 != 0) == false,
        ((v >> 6) & 0x10 != 0) == false,
        ((v >> 6) & 0x08 != 0) == false,
        ((v >> 6) & 0x04 != 0) == false,
        ((v >> 6) & 0x02 != 0) == (v & 0x80 != 0),
        ((v >> 6) & 0x01 != 0) == (v & 0x40 != 0),
        ((v >> 7) & 0x80 != 0) == false,
        ((v >> 7) & 0x40 != 0) == false,
        ((v >> 7) & 0x20 != 0) == false,
        ((v >> 7) & 0x10 != 0) == false,
        ((v >> 7) & 0x08 != 0) == false,
        ((v >> 7) & 0x04 != 0) == false,
        ((v >> 7) & 0x02 != 0) == false,
        ((v >> 7) & 0x01 != 0) == (v & 0x80 != 0),
{
}

/// Bit `i` of a byte rotated left is the bit that the rotation moved there.
pub proof fn lemma_rotl_bits(v: u8, n: nat)
    ensures
        forall|i: int| 0 <= i < 8 ==> #[trigger] bit_at(rotl(v, n), i) == bit_at(v, (i + n) % 8),
{
    lemma_mask_rotl(v);
    let w = rotl(v, n);
    assert forall|i: int| 0 <= i < 8 implies #[trigger] bit_at(w, i) == bit_at(v, (i + n) % 8) by {
        let k = n % 8;
        let j = (i + n) % 8;
        assert(j == (i + k) % 8) by (nonlinear_arith)
            requires
                j == (i + n) % 8,
                k == n % 8,
                0 <= i,
        ;
    }
}

/// Bit `i` of a byte rotated right is the bit that the rotation moved there.
pub proof fn lemma_rotr_bits(v: u8, n: nat)
    ensures
        forall|i: int| 0 <= i < 8 ==> #[trigger] bit_at(rotr(v, n), i) == bit_at(v, (i + 8 - n % 8) % 8),
{
    lemma_mask_rotr(v);
}

/// Bit `i` of a byte shifted left is the bit that the shift moved there, or
/// `false` where a zero came in.
pub proof fn lemma_shl_bits(v: u8, n: nat)
    ensures
        forall|i: int|
            0 <= i < 8 ==> #[trigger] bit_at(shl(v, n), i) == (if i + n < 8 {
                bit_at(v, i + n)
            } else {
                false
            }),
{
    lemma_mask_shl(v);
    assert(0u8 & 0x80 == 0 && 0u8 & 0x40 == 0 && 0u8 & 0x20 == 0 && 0u8 & 0x10 == 0 && 0u8 & 0x08 == 0 && 0u8 & 0x04
        == 0 && 0u8 & 0x02 == 0 && 0u8 & 0x01 == 0) by (bit_vector);
}

/// Bit `i` of a byte shifted right is the bit that the shift moved there, or
/// `false` where a zero came in.
pub proof fn lemma_shr_bits(v: u8, n: nat)
    ensures
        forall|i: int|
            0 <= i < 8 ==> #[trigger] bit_at(shr(v, n), i) == (if i - n >= 0 {
                bit_at(v, i - n)
            } else {
                false
            }),
{
    lemma_mask_shr(v);
    assert(0u8 & 0x80 == 0 && 0u8 & 0x40 == 0 && 0u8 & 0x20 == 0 && 0u8 & 0x10 == 0 && 0u8 & 0x08 == 0 && 0u8 & 0x04
        == 0 && 0u8 & 0x02 == 0 && 0u8 & 0x01 == 0) by (bit_vector);
}

} // verus!
