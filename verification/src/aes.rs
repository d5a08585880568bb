//! AES-128 on plain bytes, as the mathematics that the encrypted evaluation
//! is held to. A block is a 4x4 matrix of bytes, written row after row: the
//! byte of row `r` and column `c` stands at index `4 * r + c`.

use crate::bytes::xtime;
use crate::sbox::{inv_sbox, lemma_sbox_inverse, sbox};
use vstd::prelude::*;

verus! {

/// The matrix of a block that is given column after column, as AES blocks
/// are written; and the block of a matrix, since the map is its own inverse.
pub open spec fn transpose(block: Seq<u8>) -> Seq<u8> {
    Seq::new(16, |i: int| block[4 * (i % 4) + i / 4])
}

/// Transposing twice gives the block back.
pub proof fn lemma_transpose_twice(m: Seq<u8>)
    requires
        m.len() == 16,
    ensures
        transpose(transpose(m)) == m,
        transpose(m).len() == 16,
{
    assert(transpose(transpose(m)) =~= m);
}

/// SubBytes: every byte goes through the S-box.
#[verifier::opaque]
pub open spec fn sub_bytes(m: Seq<u8>) -> Seq<u8> {
    Seq::new(16, |i: int| sbox(m[i]))
}

/// InvSubBytes: every byte goes through the inverse S-box.
#[verifier::opaque]
pub open spec fn inv_sub_bytes(m: Seq<u8>) -> Seq<u8> {
    Seq::new(16, |i: int| inv_sbox(m[i]))
}

/// ShiftRows: row `r` is rotated to the left by `r` places.
#[verifier::opaque]
pub open spec fn shift_rows(m: Seq<u8>) -> Seq<u8> {
    Seq::new(16, |i: int| m[4 * (i / 4) + (i % 4 + i / 4) % 4])
}

/// InvShiftRows: row `r` is rotated to the right by `r` places.
#[verifier::opaque]
pub open spec fn inv_shift_rows(m: Seq<u8>) -> Seq<u8> {
    Seq::new(16, |i: int| m[4 * (i / 4) + (i % 4 + 4 - i / 4) % 4])
}

/// One entry of MixColumns: `2 a0 + 3 a1 + a2 + a3` in GF(2^8).
pub open spec fn mix_entry(a0: u8, a1: u8, a2: u8, a3: u8) -> u8 {
    xtime(a0) ^ (xtime(a1) ^ a1) ^ a2 ^ a3
}

/// MixColumns: in every column, the entry of row `r` becomes
/// `2 a[r] + 3 a[r+1] + a[r+2] + a[r+3]`, the rows counted modulo 4.
#[verifier::opaque]
pub open spec fn mix_columns(m: Seq<u8>) -> Seq<u8> {
    Seq::new(
        16,
        |i: int|
            mix_entry(
                m[4 * (i / 4) + i % 4],
                m[4 * ((i / 4 + 1) % 4) + i % 4],
                m[4 * ((i / 4 + 2) % 4) + i % 4],
                m[4 * ((i / 4 + 3) % 4) + i % 4],
            ),
    )
}

/// One entry of InvMixColumns: `14 a0 + 11 a1 + 13 a2 + 9 a3` in GF(2^8).
pub open spec fn inv_mix_entry(a0: u8, a1: u8, a2: u8, a3: u8) -> u8 {
    (xtime(xtime(xtime(a0))) ^ xtime(xtime(a0)) ^ xtime(a0)) ^ (xtime(xtime(xtime(a1))) ^ xtime(a1) ^ a1) ^ (xtime(
        xtime(xtime(a2)),
    ) ^ xtime(xtime(a2)) ^ a2) ^ (xtime(xtime(xtime(a3))) ^ a3)
}

/// InvMixColumns: in every column, the entry of row `r` becomes
/// `14 a[r] + 11 a[r+1] + 13 a[r+2] + 9 a[r+3]`, the rows counted modulo 4.
#[verifier::opaque]
pub open spec fn inv_mix_columns(m: Seq<u8>) -> Seq<u8> {
    Seq::new(
        16,
        |i: int|
            inv_mix_entry(
                m[4 * (i / 4) + i % 4],
                m[4 * ((i / 4 + 1) % 4) + i % 4],
                m[4 * ((i / 4 + 2) % 4) + i % 4],
                m[4 * ((i / 4 + 3) % 4) + i % 4],
            ),
    )
}

/// AddRoundKey: the bytes of the round key are added by XOR.
#[verifier::opaque]
pub open spec fn add_round_key(m: Seq<u8>, key: Seq<u8>) -> Seq<u8> {
    Seq::new(16, |i: int| m[i] ^ key[i])
}

/// 256 to the power `k`.
pub open spec fn pow256(k: nat) -> nat
    decreases k,
{
    if k == 0 {
        1
    } else {
        256 * pow256((k - 1) as nat)
    }
}

/// The number that a row of bytes spells, most significant byte first.
pub open spec fn be_value(bytes: Seq<u8>) -> nat
    decreases bytes.len(),
{
    if bytes.len() == 0 {
        0
    } else {
        be_value(bytes.drop_last()) * 256 + bytes.last() as nat
    }
}

/// A byte in front of a row counts 256 to the power of the row's length.
#[verifier::rlimit(50)]
pub proof fn lemma_be_value_prepend(b: u8, s: Seq<u8>)
    ensures
        be_value(seq![b] + s) == b * pow256(s.len()) + be_value(s),
    decreases s.len(),
{
    let whole = seq![b] + s;
    if s.len() == 0 {
        assert(whole =~= seq![b]);
        assert(whole.drop_last() =~= Seq::<u8>::empty());
        assert(be_value(whole.drop_last()) == 0);
        assert(whole.last() == b);
        assert(pow256(0) == 1);
        assert(be_value(s) == 0);
        assert(be_value(whole) == b);
    } else {
        let t = s.drop_last();
        assert(whole.drop_last() =~= seq![b] + t);
        assert(whole.last() == s.last());
        lemma_be_value_prepend(b, t);
        let power = pow256(t.len()) as int;
        let rest = be_value(t) as int;
        let head = b as int;
        let tail = s.last() as int;
        assert(pow256(s.len()) == 256 * power);
        assert(be_value(seq![b] + t) == head * power + rest);
        assert(be_value(whole) == (head * power + rest) * 256 + tail);
        assert(be_value(s) == rest * 256 + tail);
        assert((head * power + rest) * 256 == head * (256 * power) + rest * 256) by (nonlinear_arith);
    }
}

/// The number of a row that is made of two parts: the first part counts 256
/// to the power of the second part's length.
#[verifier::rlimit(50)]
pub proof fn lemma_be_value_concat(a: Seq<u8>, b: Seq<u8>)
    ensures
        be_value(a + b) == be_value(a) * pow256(b.len()) + be_value(b),
    decreases b.len(),
{
    if b.len() == 0 {
        assert(a + b =~= a);
        assert(pow256(0) == 1);
        assert(be_value(b) == 0);
        assert(be_value(a) * 1 == be_value(a)) by (nonlinear_arith);
    } else {
        let t = b.drop_last();
        assert((a + b).drop_last() =~= a + t);
        assert((a + b).last() == b.last());
        lemma_be_value_concat(a, t);
        let power = pow256(t.len()) as int;
        let head = be_value(a) as int;
        let rest = be_value(t) as int;
        let tail = b.last() as int;
        assert(pow256(b.len()) == 256 * power);
        assert(be_value(a + t) == head * power + rest);
        assert(be_value(a + b) == (head * power + rest) * 256 + tail);
        assert(be_value(b) == rest * 256 + tail);
        assert((head * power + rest) * 256 == head * (256 * power) + rest * 256) by (nonlinear_arith);
    }
}

/// The number of a row lies below 256 to the power of its length; it is 0
/// where every byte is 0, and the greatest such number where every byte is
/// 255.
pub proof fn lemma_be_value_bounds(s: Seq<u8>)
    ensures
        be_value(s) < pow256(s.len()),
        (forall|i: int| 0 <= i < s.len() ==> s[i] == 0) ==> be_value(s) == 0,
        (forall|i: int| 0 <= i < s.len() ==> s[i] == 255) ==> be_value(s) == pow256(s.len()) - 1,
    decreases s.len(),
{
    if s.len() == 0 {
        assert(pow256(0) == 1);
    } else {
        let t = s.drop_last();
        lemma_be_value_bounds(t);
        assert(pow256(s.len()) == 256 * pow256(t.len()));
        if forall|i: int| 0 <= i < s.len() ==> s[i] == 0 {
            assert forall|i: int| 0 <= i < t.len() implies t[i] == 0 by {
                assert(t[i] == s[i]);
            }
        }
        if forall|i: int| 0 <= i < s.len() ==> s[i] == 255 {
            assert forall|i: int| 0 <= i < t.len() implies t[i] == 255 by {
                assert(t[i] == s[i]);
            }
        }
    }
}

/// The `len` bytes that spell the number `n`, most significant byte first;
/// what does not fit is cut off at the front.
pub open spec fn be_digits(n: nat, len: nat) -> Seq<u8>
    decreases len,
{
    if len == 0 {
        Seq::<u8>::empty()
    } else {
        be_digits(n / 256, (len - 1) as nat).push((n % 256) as u8)
    }
}

/// A row of bytes is the row of the digits of the number that it spells.
pub proof fn lemma_be_digits(s: Seq<u8>)
    ensures
        s == be_digits(be_value(s), s.len()),
    decreases s.len(),
{
    if s.len() == 0 {
        assert(s =~= Seq::<u8>::empty());
    } else {
        let t = s.drop_last();
        lemma_be_digits(t);
        let n = be_value(s);
        assert(n == be_value(t) * 256 + s.last());
        assert(n / 256 == be_value(t));
        assert(n % 256 == s.last());
        assert(s =~= t.push(s.last()));
    }
}

/// The powers of 256 grow, and the sixteenth is two to the power 128.
pub proof fn lemma_pow256(k: nat)
    requires
        k <= 16,
    ensures
        1 <= pow256(k) <= pow256(16),
        pow256(16) == 0x1_0000_0000_0000_0000_0000_0000_0000_0000,
    decreases 16 - k,
{
    reveal_with_fuel(pow256, 17);
    if k < 16 {
        lemma_pow256(k + 1);
    }
}


/// Multiplication by `x` distributes over the addition of GF(2^8).
pub proof fn lemma_xtime_linear(a: u8, b: u8)
    by (bit_vector)
    ensures
        xtime(a ^ b) == xtime(a) ^ xtime(b),
{
}

/// The four entries of one column of MixColumns, as sums in another order:
/// the sum of the three other rows first, then the two doubled terms.
/// `x0` to `x3` stand for the doubles of `r0` to `r3`.
pub proof fn lemma_mix_sums(r0: u8, r1: u8, r2: u8, r3: u8, x0: u8, x1: u8, x2: u8, x3: u8)
    by (bit_vector)
    ensures
        (((r2 ^ r3) ^ r1) ^ x0) ^ x1 == x0 ^ (x1 ^ r1) ^ r2 ^ r3,
        (((r2 ^ r3) ^ r0) ^ x1) ^ x2 == x1 ^ (x2 ^ r2) ^ r3 ^ r0,
        (((r0 ^ r1) ^ r3) ^ x2) ^ x3 == x2 ^ (x3 ^ r3) ^ r0 ^ r1,
        (((r0 ^ r1) ^ r2) ^ x3) ^ x0 == x3 ^ (x0 ^ r0) ^ r1 ^ r2,
{
}

/// The four entries of one column of InvMixColumns, as the sums that the
/// decomposition into MixColumns and a correction yields. `a`, `b` and `c`
/// stand for the products of the column's bytes by 2, 4 and 8.
pub proof fn lemma_inv_mix_sums(
    r0: u8, r1: u8, r2: u8, r3: u8,
    a0: u8, a1: u8, a2: u8, a3: u8,
    b0: u8, b1: u8, b2: u8, b3: u8,
    c0: u8, c1: u8, c2: u8, c3: u8,
)
    by (bit_vector)
    ensures
        ((r0 ^ ((a0 ^ a1) ^ (b0 ^ b2))) ^ ((r0 ^ r1) ^ (r2 ^ r3))) ^ ((c0 ^ c1) ^ (c2 ^ c3)) == (c0 ^ b0 ^ a0) ^ (c1
            ^ a1 ^ r1) ^ (c2 ^ b2 ^ r2) ^ (c3 ^ r3),
        ((r1 ^ ((a1 ^ a2) ^ (b1 ^ b3))) ^ ((r0 ^ r1) ^ (r2 ^ r3))) ^ ((c0 ^ c1) ^ (c2 ^ c3)) == (c1 ^ b1 ^ a1) ^ (c2
            ^ a2 ^ r2) ^ (c3 ^ b3 ^ r3) ^ (c0 ^ r0),
        ((r2 ^ ((a2 ^ a3) ^ (b0 ^ b2))) ^ ((r0 ^ r1) ^ (r2 ^ r3))) ^ ((c0 ^ c1) ^ (c2 ^ c3)) == (c2 ^ b2 ^ a2) ^ (c3
            ^ a3 ^ r3) ^ (c0 ^ b0 ^ r0) ^ (c1 ^ r1),
        ((r3 ^ ((a3 ^ a0) ^ (b1 ^ b3))) ^ ((r0 ^ r1) ^ (r2 ^ r3))) ^ ((c0 ^ c1) ^ (c2 ^ c3)) == (c3 ^ b3 ^ a3) ^ (c0
            ^ a0 ^ r0) ^ (c1 ^ b1 ^ r1) ^ (c2 ^ r2),
{
}

/// What the decomposed InvMixColumns computes for one column: the entries
/// of the four rows.
#[verifier::rlimit(50)]
pub proof fn lemma_inv_mix_column(r0: u8, r1: u8, r2: u8, r3: u8)
    ensures
        ((r0 ^ (xtime(r0 ^ r1) ^ xtime(xtime(r0 ^ r2)))) ^ ((r0 ^ r1) ^ (r2 ^ r3))) ^ xtime(
            xtime(xtime((r0 ^ r1) ^ (r2 ^ r3))),
        ) == inv_mix_entry(r0, r1, r2, r3),
        ((r1 ^ (xtime(r1 ^ r2) ^ xtime(xtime(r1 ^ r3)))) ^ ((r0 ^ r1) ^ (r2 ^ r3))) ^ xtime(
            xtime(xtime((r0 ^ r1) ^ (r2 ^ r3))),
        ) == inv_mix_entry(r1, r2, r3, r0),
        ((r2 ^ (xtime(r2 ^ r3) ^ xtime(xtime(r0 ^ r2)))) ^ ((r0 ^ r1) ^ (r2 ^ r3))) ^ xtime(
            xtime(xtime((r0 ^ r1) ^ (r2 ^ r3))),
        ) == inv_mix_entry(r2, r3, r0, r1),
        ((r3 ^ (xtime(r3 ^ r0) ^ xtime(xtime(r1 ^ r3)))) ^ ((r0 ^ r1) ^ (r2 ^ r3))) ^ xtime(
            xtime(xtime((r0 ^ r1) ^ (r2 ^ r3))),
        ) == inv_mix_entry(r3, r0, r1, r2),
{
    let a0 = xtime(r0);
    let a1 = xtime(r1);
    let a2 = xtime(r2);
    let a3 = xtime(r3);
    let b0 = xtime(a0);
    let b1 = xtime(a1);
    let b2 = xtime(a2);
    let b3 = xtime(a3);
    let c0 = xtime(b0);
    let c1 = xtime(b1);
    let c2 = xtime(b2);
    let c3 = xtime(b3);
    lemma_xtime_linear(r0, r1);
    lemma_xtime_linear(r1, r2);
    lemma_xtime_linear(r2, r3);
    lemma_xtime_linear(r3, r0);
    lemma_xtime_linear(r0, r2);
    lemma_xtime_linear(r1, r3);
    lemma_xtime_linear(a0, a2);
    lemma_xtime_linear(a1, a3);
    lemma_xtime_linear(r0 ^ r1, r2 ^ r3);
    lemma_xtime_linear(a0, a1);
    lemma_xtime_linear(a2, a3);
    lemma_xtime_linear(a0 ^ a1, a2 ^ a3);
    lemma_xtime_linear(b0, b1);
    lemma_xtime_linear(b2, b3);
    lemma_xtime_linear(b0 ^ b1, b2 ^ b3);
    assert(xtime(xtime(xtime((r0 ^ r1) ^ (r2 ^ r3)))) == (c0 ^ c1) ^ (c2 ^ c3));
    assert(xtime(xtime(r0 ^ r2)) == b0 ^ b2);
    assert(xtime(xtime(r1 ^ r3)) == b1 ^ b3);
    lemma_inv_mix_sums(r0, r1, r2, r3, a0, a1, a2, a3, b0, b1, b2, b3, c0, c1, c2, c3);
}


/// Multiplication by `x` distributes over a sum of five terms.
pub proof fn lemma_xtime_sum(p: u8, q: u8, r: u8, s: u8, t: u8)
    by (bit_vector)
    ensures
        xtime(((p ^ (q ^ r)) ^ s) ^ t) == ((xtime(p) ^ (xtime(q) ^ xtime(r))) ^ xtime(s)) ^ xtime(t),
{
}

/// The sum that InvMixColumns forms of a mixed column, with every product
/// written as a term of its own: all terms but the first byte cancel.
/// `tkj` stands for byte `j` of the column multiplied `k` times by `x`.
proof fn lemma_mix_cancels(t00: u8, t01: u8, t02: u8, t03: u8, t10: u8, t11: u8, t12: u8, t13: u8, t20: u8, t21: u8, t22: u8, t23: u8, t30: u8, t31: u8, t32: u8, t33: u8, t40: u8, t41: u8, t42: u8, t43: u8)
    by (bit_vector)
    ensures
        (((((t40 ^ (t41 ^ t31)) ^ t32) ^ t33) ^ (((t30 ^ (t31 ^ t21)) ^ t22) ^ t23) ^ (((t20 ^ (t21 ^ t11)) ^ t12) ^ t13)) ^ ((((t41 ^ (t42 ^ t32)) ^ t33) ^ t30) ^ (((t21 ^ (t22 ^ t12)) ^ t13) ^ t10) ^ (((t11 ^ (t12 ^ t02)) ^ t03) ^ t00)) ^ ((((t42 ^ (t43 ^ t33)) ^ t30) ^ t31) ^ (((t32 ^ (t33 ^ t23)) ^ t20) ^ t21) ^ (((t12 ^ (t13 ^ t03)) ^ t00) ^ t01)) ^ ((((t43 ^ (t40 ^ t30)) ^ t31) ^ t32) ^ (((t13 ^ (t10 ^ t00)) ^ t01) ^ t02))) == t00,
{
}

/// InvMixColumns undoes MixColumns: the first entry of a column that was
/// mixed and then mixed back is the first entry of the column. The other
/// entries follow by turning the column.
#[verifier::rlimit(50)]
pub proof fn lemma_inv_mix_of_mix(a0: u8, a1: u8, a2: u8, a3: u8)
    ensures
        inv_mix_entry(
            mix_entry(a0, a1, a2, a3),
            mix_entry(a1, a2, a3, a0),
            mix_entry(a2, a3, a0, a1),
            mix_entry(a3, a0, a1, a2),
        ) == a0,
{
    let t00 = a0;
    let t01 = a1;
    let t02 = a2;
    let t03 = a3;
    let t10 = xtime(t00);
    let t11 = xtime(t01);
    let t12 = xtime(t02);
    let t13 = xtime(t03);
    let t20 = xtime(t10);
    let t21 = xtime(t11);
    let t22 = xtime(t12);
    let t23 = xtime(t13);
    let t30 = xtime(t20);
    let t31 = xtime(t21);
    let t32 = xtime(t22);
    let t33 = xtime(t23);
    let t40 = xtime(t30);
    let t41 = xtime(t31);
    let t42 = xtime(t32);
    let t43 = xtime(t33);
    lemma_xtime_sum(t10, t11, t01, t02, t03);
    lemma_xtime_sum(t20, t21, t11, t12, t13);
    lemma_xtime_sum(t30, t31, t21, t22, t23);
    lemma_xtime_sum(t11, t12, t02, t03, t00);
    lemma_xtime_sum(t21, t22, t12, t13, t10);
    lemma_xtime_sum(t31, t32, t22, t23, t20);
    lemma_xtime_sum(t12, t13, t03, t00, t01);
    lemma_xtime_sum(t22, t23, t13, t10, t11);
    lemma_xtime_sum(t32, t33, t23, t20, t21);
    lemma_xtime_sum(t13, t10, t00, t01, t02);
    lemma_xtime_sum(t23, t20, t10, t11, t12);
    lemma_xtime_sum(t33, t30, t20, t21, t22);
    lemma_mix_cancels(t00, t01, t02, t03, t10, t11, t12, t13, t20, t21, t22, t23, t30, t31, t32, t33, t40, t41, t42, t43);
}


/// The round constants of the AES-128 key schedule.
pub open spec fn rcon(round: int) -> u8 {
    if round == 1 {
        0x01
    } else if round == 2 {
        0x02
    } else if round == 3 {
        0x04
    } else if round == 4 {
        0x08
    } else if round == 5 {
        0x10
    } else if round == 6 {
        0x20
    } else if round == 7 {
        0x40
    } else if round == 8 {
        0x80
    } else if round == 9 {
        0x1b
    } else {
        0x36
    }
}

/// The word that the key schedule derives from the last column of a round
/// key: the column turned by one byte, every byte through the S-box, and the
/// round constant added to the first byte.
pub open spec fn schedule_word(key: Seq<u8>, constant: u8) -> Seq<u8> {
    seq![sbox(key[13]) ^ constant, sbox(key[14]), sbox(key[15]), sbox(key[12])]
}

/// Byte `i` of the round key that follows `key`: in the first column the
/// byte of `key` plus the derived word, in the other columns the byte of
/// `key` plus the new byte one column before.
pub open spec fn next_key_byte(key: Seq<u8>, constant: u8, i: int) -> u8
    decreases i,
{
    if i < 4 {
        key[i] ^ schedule_word(key, constant)[i]
    } else {
        key[i] ^ next_key_byte(key, constant, i - 4)
    }
}

/// The round key that follows `key` in the AES-128 key schedule. Round keys
/// are blocks, written column after column.
pub open spec fn next_round_key(key: Seq<u8>, constant: u8) -> Seq<u8> {
    Seq::new(16, |i: int| next_key_byte(key, constant, i))
}

/// Round key `round` of the AES-128 key schedule of `key`.
pub open spec fn round_key(key: Seq<u8>, round: nat) -> Seq<u8>
    decreases round,
{
    if round == 0 {
        key
    } else {
        next_round_key(round_key(key, (round - 1) as nat), rcon(round as int))
    }
}


/// The sums that the row-wise MixColumns forms are the entries of MixColumns.
#[verifier::rlimit(50)]
pub proof fn lemma_mix_columns_steps(m: Seq<u8>, y: Seq<u8>)
    requires
        m.len() == 16,
        y.len() == 16,
        forall|c: int|
            0 <= c < 4 ==> #[trigger] y[c] == (((m[8 + c] ^ m[12 + c]) ^ m[4 + c]) ^ xtime(m[c])) ^ xtime(m[4 + c]),
        forall|c: int|
            0 <= c < 4 ==> #[trigger] y[4 + c] == (((m[8 + c] ^ m[12 + c]) ^ m[c]) ^ xtime(m[4 + c])) ^ xtime(
                m[8 + c],
            ),
        forall|c: int|
            0 <= c < 4 ==> #[trigger] y[8 + c] == (((m[c] ^ m[4 + c]) ^ m[12 + c]) ^ xtime(m[8 + c])) ^ xtime(
                m[12 + c],
            ),
        forall|c: int|
            0 <= c < 4 ==> #[trigger] y[12 + c] == (((m[c] ^ m[4 + c]) ^ m[8 + c]) ^ xtime(m[12 + c])) ^ xtime(m[c]),
    ensures
        y == mix_columns(m),
{
    reveal(mix_columns);
    assert forall|i: int| 0 <= i < 16 implies y[i] == mix_columns(m)[i] by {
        let c = i % 4;
        let r0 = m[c];
        let r1 = m[4 + c];
        let r2 = m[8 + c];
        let r3 = m[12 + c];
        lemma_mix_sums(r0, r1, r2, r3, xtime(r0), xtime(r1), xtime(r2), xtime(r3));
        assert(y[c] == (((r2 ^ r3) ^ r1) ^ xtime(r0)) ^ xtime(r1));
        assert(y[4 + c] == (((r2 ^ r3) ^ r0) ^ xtime(r1)) ^ xtime(r2));
        assert(y[8 + c] == (((r0 ^ r1) ^ r3) ^ xtime(r2)) ^ xtime(r3));
        assert(y[12 + c] == (((r0 ^ r1) ^ r2) ^ xtime(r3)) ^ xtime(r0));
        if i < 4 {
            assert(i == c);
        } else if i < 8 {
            assert(i == 4 + c);
        } else if i < 12 {
            assert(i == 8 + c);
        } else {
            assert(i == 12 + c);
        }
    }
    assert(y =~= mix_columns(m));
}

/// The sums that the decomposed InvMixColumns forms are the entries of
/// InvMixColumns. `y` holds the sums of neighbouring rows, `p` four times the
/// sums of rows two apart, `s` the sums of the columns, `z` the doubled `y`
/// plus `p`, `t` eight times `s`, and `d` the result.
#[verifier::rlimit(50)]
pub proof fn lemma_inv_mix_columns_steps(
    m: Seq<u8>,
    y: Seq<u8>,
    p: Seq<u8>,
    s: Seq<u8>,
    z: Seq<u8>,
    t: Seq<u8>,
    d: Seq<u8>,
)
    requires
        m.len() == 16,
        y.len() == 16,
        p.len() == 8,
        s.len() == 4,
        z.len() == 16,
        t.len() == 4,
        d.len() == 16,
        forall|i: int| 0 <= i < 16 ==> #[trigger] y[i] == m[i] ^ m[(i + 4) % 16],
        forall|i: int| 0 <= i < 8 ==> #[trigger] p[i] == xtime(xtime(m[i] ^ m[i + 8])),
        forall|c: int| 0 <= c < 4 ==> #[trigger] s[c] == y[c] ^ y[8 + c],
        forall|i: int| 0 <= i < 16 ==> #[trigger] z[i] == xtime(y[i]) ^ p[i % 8],
        forall|c: int| 0 <= c < 4 ==> #[trigger] t[c] == xtime(xtime(xtime(s[c]))),
        forall|i: int| 0 <= i < 16 ==> #[trigger] d[i] == ((m[i] ^ z[i]) ^ s[i % 4]) ^ t[i % 4],
    ensures
        d == inv_mix_columns(m),
{
    reveal(inv_mix_columns);
    assert forall|i: int| 0 <= i < 16 implies d[i] == inv_mix_columns(m)[i] by {
        let c = i % 4;
        let r0 = m[c];
        let r1 = m[4 + c];
        let r2 = m[8 + c];
        let r3 = m[12 + c];
        lemma_inv_mix_column(r0, r1, r2, r3);
        assert(y[c] == r0 ^ r1);
        assert(y[4 + c] == r1 ^ r2);
        assert(y[8 + c] == r2 ^ r3);
        assert(y[12 + c] == r3 ^ r0);
        assert(p[c] == xtime(xtime(r0 ^ r2)));
        assert(p[4 + c] == xtime(xtime(r1 ^ r3)));
        assert(s[c] == (r0 ^ r1) ^ (r2 ^ r3));
        assert(t[c] == xtime(xtime(xtime((r0 ^ r1) ^ (r2 ^ r3)))));
        if i < 4 {
            assert(i == c);
            assert(z[i] == xtime(y[i]) ^ p[i % 8]);
        } else if i < 8 {
            assert(i == 4 + c);
            assert(z[i] == xtime(y[i]) ^ p[i % 8]);
        } else if i < 12 {
            assert(i == 8 + c);
            assert(z[i] == xtime(y[i]) ^ p[i % 8]);
        } else {
            assert(i == 12 + c);
            assert(z[i] == xtime(y[i]) ^ p[i % 8]);
        }
        assert(d[i] == ((m[i] ^ z[i]) ^ s[i % 4]) ^ t[i % 4]);
    }
    assert(d =~= inv_mix_columns(m));
}

/// A matrix of sixteen bytes.
pub open spec fn is_matrix(m: Seq<u8>) -> bool {
    m.len() == 16
}

/// The state of the cipher after round `round`, for rounds 0 to 9: round 0
/// adds the first round key; every later round substitutes, shifts, mixes
/// and adds its round key.
pub open spec fn cipher_state(keys: Seq<Seq<u8>>, m: Seq<u8>, round: nat) -> Seq<u8>
    decreases round,
{
    if round == 0 {
        add_round_key(m, keys[0])
    } else {
        add_round_key(
            mix_columns(shift_rows(sub_bytes(cipher_state(keys, m, (round - 1) as nat)))),
            keys[round as int],
        )
    }
}

/// The AES-128 cipher on a matrix: nine full rounds, then a last round
/// without MixColumns.
pub open spec fn cipher(keys: Seq<Seq<u8>>, m: Seq<u8>) -> Seq<u8> {
    add_round_key(shift_rows(sub_bytes(cipher_state(keys, m, 9))), keys[10])
}

/// The state of the inverse cipher after round `round`, for rounds 0 to 9:
/// round 0 adds the last round key; every later round shifts back,
/// substitutes back, adds its round key and mixes back.
pub open spec fn inv_cipher_state(keys: Seq<Seq<u8>>, m: Seq<u8>, round: nat) -> Seq<u8>
    decreases round,
{
    if round == 0 {
        add_round_key(m, keys[10])
    } else {
        inv_mix_columns(
            add_round_key(
                inv_sub_bytes(inv_shift_rows(inv_cipher_state(keys, m, (round - 1) as nat))),
                keys[10 - round],
            ),
        )
    }
}

/// The inverse of the AES-128 cipher on a matrix.
pub open spec fn inv_cipher(keys: Seq<Seq<u8>>, m: Seq<u8>) -> Seq<u8> {
    add_round_key(inv_sub_bytes(inv_shift_rows(inv_cipher_state(keys, m, 9))), keys[0])
}

/// Adding the same key twice changes nothing.
pub proof fn lemma_add_round_key_twice(m: Seq<u8>, key: Seq<u8>)
    requires
        is_matrix(m),
    ensures
        add_round_key(add_round_key(m, key), key) == m,
        is_matrix(add_round_key(m, key)),
{
    reveal(add_round_key);
    assert forall|i: int| 0 <= i < 16 implies add_round_key(add_round_key(m, key), key)[i] == m[i] by {
        let a = m[i];
        let b = key[i];
        assert((a ^ b) ^ b == a) by (bit_vector);
    }
    assert(add_round_key(add_round_key(m, key), key) =~= m);
}

/// InvSubBytes undoes SubBytes.
pub proof fn lemma_sub_bytes_inverse(m: Seq<u8>)
    requires
        is_matrix(m),
    ensures
        inv_sub_bytes(sub_bytes(m)) == m,
        is_matrix(sub_bytes(m)),
{
    reveal(sub_bytes);
    reveal(inv_sub_bytes);
    lemma_sbox_inverse();
    assert(inv_sub_bytes(sub_bytes(m)) =~= m);
}

/// InvShiftRows undoes ShiftRows.
pub proof fn lemma_shift_rows_inverse(m: Seq<u8>)
    requires
        is_matrix(m),
    ensures
        inv_shift_rows(shift_rows(m)) == m,
        is_matrix(shift_rows(m)),
{
    reveal(shift_rows);
    reveal(inv_shift_rows);
    assert(inv_shift_rows(shift_rows(m)) =~= m);
}

/// InvMixColumns undoes MixColumns in column `c`.
#[verifier::rlimit(50)]
proof fn lemma_mix_column_inverse(m: Seq<u8>, c: int)
    requires
        is_matrix(m),
        0 <= c < 4,
    ensures
        inv_mix_columns(mix_columns(m)).len() == 16,
        mix_columns(m).len() == 16,
        inv_mix_columns(mix_columns(m))[c] == m[c],
        inv_mix_columns(mix_columns(m))[4 + c] == m[4 + c],
        inv_mix_columns(mix_columns(m))[8 + c] == m[8 + c],
        inv_mix_columns(mix_columns(m))[12 + c] == m[12 + c],
{
    reveal(mix_columns);
    reveal(inv_mix_columns);
    let a0 = m[c];
    let a1 = m[4 + c];
    let a2 = m[8 + c];
    let a3 = m[12 + c];
    let mixed = mix_columns(m);
    assert(mixed[c] == mix_entry(a0, a1, a2, a3));
    assert(mixed[4 + c] == mix_entry(a1, a2, a3, a0));
    assert(mixed[8 + c] == mix_entry(a2, a3, a0, a1));
    assert(mixed[12 + c] == mix_entry(a3, a0, a1, a2));
    let back = inv_mix_columns(mixed);
    assert(back[c] == inv_mix_entry(mixed[c], mixed[4 + c], mixed[8 + c], mixed[12 + c]));
    assert(back[4 + c] == inv_mix_entry(mixed[4 + c], mixed[8 + c], mixed[12 + c], mixed[c]));
    assert(back[8 + c] == inv_mix_entry(mixed[8 + c], mixed[12 + c], mixed[c], mixed[4 + c]));
    assert(back[12 + c] == inv_mix_entry(mixed[12 + c], mixed[c], mixed[4 + c], mixed[8 + c]));
    lemma_inv_mix_of_mix(a0, a1, a2, a3);
    lemma_inv_mix_of_mix(a1, a2, a3, a0);
    lemma_inv_mix_of_mix(a2, a3, a0, a1);
    lemma_inv_mix_of_mix(a3, a0, a1, a2);
}

/// InvMixColumns undoes MixColumns.
#[verifier::rlimit(50)]
pub proof fn lemma_mix_columns_inverse(m: Seq<u8>)
    requires
        is_matrix(m),
    ensures
        inv_mix_columns(mix_columns(m)) == m,
        is_matrix(mix_columns(m)),
{
    lemma_mix_column_inverse(m, 0);
    lemma_mix_column_inverse(m, 1);
    lemma_mix_column_inverse(m, 2);
    lemma_mix_column_inverse(m, 3);
    let back = inv_mix_columns(mix_columns(m));
    assert forall|i: int| 0 <= i < 16 implies back[i] == m[i] by {
        let c = i % 4;
        if i < 4 {
            assert(i == c);
        } else if i < 8 {
            assert(i == 4 + c);
        } else if i < 12 {
            assert(i == 8 + c);
        } else {
            assert(i == 12 + c);
        }
    }
    assert(back =~= m);
}

/// The cipher keeps the sixteen bytes of a matrix.
pub proof fn lemma_cipher_state_matrix(keys: Seq<Seq<u8>>, m: Seq<u8>, round: nat)
    ensures
        is_matrix(cipher_state(keys, m, round)),
        is_matrix(cipher(keys, m)),
        is_matrix(inv_cipher(keys, m)),
    decreases round,
{
    reveal(add_round_key);
}

/// Round by round, the inverse cipher walks the cipher's states backwards:
/// after round `j` it holds what the cipher held before the key of round
/// `10 - j` was mixed in.
#[verifier::rlimit(50)]
pub proof fn lemma_inv_cipher_state(keys: Seq<Seq<u8>>, m: Seq<u8>, j: nat)
    requires
        is_matrix(m),
        j <= 9,
    ensures
        inv_cipher_state(keys, cipher(keys, m), j) == shift_rows(sub_bytes(cipher_state(keys, m, (9 - j) as nat))),
    decreases j,
{
    if j == 0 {
        let e = cipher_state(keys, m, 9);
        lemma_cipher_state_matrix(keys, m, 9);
        lemma_sub_bytes_inverse(e);
        lemma_shift_rows_inverse(sub_bytes(e));
        lemma_add_round_key_twice(shift_rows(sub_bytes(e)), keys[10]);
    } else {
        lemma_inv_cipher_state(keys, m, (j - 1) as nat);
        let e = cipher_state(keys, m, (10 - j) as nat);
        let before = cipher_state(keys, m, (9 - j) as nat);
        lemma_cipher_state_matrix(keys, m, (10 - j) as nat);
        lemma_cipher_state_matrix(keys, m, (9 - j) as nat);
        lemma_sub_bytes_inverse(e);
        lemma_shift_rows_inverse(sub_bytes(e));
        lemma_sub_bytes_inverse(before);
        lemma_shift_rows_inverse(sub_bytes(before));
        let shifted = shift_rows(sub_bytes(before));
        lemma_mix_columns_inverse(shifted);
        let mixed = mix_columns(shifted);
        assert(e == add_round_key(mixed, keys[10 - j]));
        lemma_add_round_key_twice(mixed, keys[10 - j]);
        let previous = inv_cipher_state(keys, cipher(keys, m), (j - 1) as nat);
        assert(previous == shift_rows(sub_bytes(e)));
        assert(inv_sub_bytes(inv_shift_rows(previous)) == e);
        assert(add_round_key(e, keys[10 - j]) == mixed);
    }
}

/// Decryption undoes encryption: for every schedule of round keys and every
/// matrix, the inverse cipher of the cipher of the matrix is the matrix.
pub proof fn lemma_cipher_inverse(keys: Seq<Seq<u8>>, m: Seq<u8>)
    requires
        is_matrix(m),
    ensures
        inv_cipher(keys, cipher(keys, m)) == m,
{
    lemma_inv_cipher_state(keys, m, 9);
    let e = cipher_state(keys, m, 0);
    lemma_cipher_state_matrix(keys, m, 0);
    lemma_sub_bytes_inverse(e);
    lemma_shift_rows_inverse(sub_bytes(e));
    lemma_add_round_key_twice(m, keys[0]);
}


/// Ciphertext block `i` of cipher block chaining: the cipher of the
/// plaintext block plus the ciphertext block before it, or plus the initial
/// vector for the first block.
pub open spec fn cbc_cipher_block(keys: Seq<Seq<u8>>, iv: Seq<u8>, plain: Seq<Seq<u8>>, i: nat) -> Seq<u8>
    decreases i,
{
    cipher(
        keys,
        add_round_key(
            plain[i as int],
            if i == 0 {
                iv
            } else {
                cbc_cipher_block(keys, iv, plain, (i - 1) as nat)
            },
        ),
    )
}

/// Plaintext block `i` of cipher block chaining: the inverse cipher of the
/// ciphertext block, plus the ciphertext block before it, or plus the
/// initial vector for the first block.
pub open spec fn cbc_plain_block(keys: Seq<Seq<u8>>, iv: Seq<u8>, crypt: Seq<Seq<u8>>, i: nat) -> Seq<u8> {
    add_round_key(
        inv_cipher(keys, crypt[i as int]),
        if i == 0 {
            iv
        } else {
            crypt[i - 1]
        },
    )
}

/// Block `i` of the key stream of output feedback: the cipher applied
/// `i + 1` times to the initial vector.
pub open spec fn ofb_stream(keys: Seq<Seq<u8>>, iv: Seq<u8>, i: nat) -> Seq<u8>
    decreases i,
{
    cipher(
        keys,
        if i == 0 {
            iv
        } else {
            ofb_stream(keys, iv, (i - 1) as nat)
        },
    )
}

/// Block `i` of output feedback: the block plus the key stream. Encryption
/// and decryption are the same map.
pub open spec fn ofb_block(keys: Seq<Seq<u8>>, iv: Seq<u8>, blocks: Seq<Seq<u8>>, i: nat) -> Seq<u8> {
    add_round_key(blocks[i as int], ofb_stream(keys, iv, i))
}

/// Block `i` of counter mode: the block plus the cipher of counter `i`.
/// Encryption and decryption are the same map.
pub open spec fn ctr_block(keys: Seq<Seq<u8>>, counters: Seq<Seq<u8>>, blocks: Seq<Seq<u8>>, i: nat) -> Seq<u8> {
    add_round_key(blocks[i as int], cipher(keys, counters[i as int]))
}

/// Cipher block chaining: decrypting the chain of ciphertext blocks gives
/// every plaintext block back.
pub proof fn lemma_cbc_round_trip(keys: Seq<Seq<u8>>, iv: Seq<u8>, plain: Seq<Seq<u8>>, crypt: Seq<Seq<u8>>, i: nat)
    requires
        i < plain.len(),
        crypt.len() == plain.len(),
        is_matrix(plain[i as int]),
        forall|j: int| 0 <= j < plain.len() ==> #[trigger] crypt[j] == cbc_cipher_block(keys, iv, plain, j as nat),
    ensures
        cbc_plain_block(keys, iv, crypt, i) == plain[i as int],
{
    let chained = if i == 0 {
        iv
    } else {
        crypt[i - 1]
    };
    let mixed = add_round_key(plain[i as int], chained);
    assert(crypt[i as int] == cipher(keys, mixed));
    lemma_add_round_key_twice(plain[i as int], chained);
    lemma_cipher_inverse(keys, mixed);
}

/// Output feedback: applying the mode to its own output gives every block
/// back.
pub proof fn lemma_ofb_round_trip(keys: Seq<Seq<u8>>, iv: Seq<u8>, plain: Seq<Seq<u8>>, crypt: Seq<Seq<u8>>, i: nat)
    requires
        i < plain.len(),
        crypt.len() == plain.len(),
        is_matrix(plain[i as int]),
        crypt[i as int] == ofb_block(keys, iv, plain, i),
    ensures
        ofb_block(keys, iv, crypt, i) == plain[i as int],
{
    lemma_add_round_key_twice(plain[i as int], ofb_stream(keys, iv, i));
}

/// Counter mode: applying the mode to its own output gives every block back.
pub proof fn lemma_ctr_round_trip(
    keys: Seq<Seq<u8>>,
    counters: Seq<Seq<u8>>,
    plain: Seq<Seq<u8>>,
    crypt: Seq<Seq<u8>>,
    i: nat,
)
    requires
        i < plain.len(),
        crypt.len() == plain.len(),
        is_matrix(plain[i as int]),
        crypt[i as int] == ctr_block(keys, counters, plain, i),
    ensures
        ctr_block(keys, counters, crypt, i) == plain[i as int],
{
    lemma_add_round_key_twice(plain[i as int], cipher(keys, counters[i as int]));
}


/// The eleven round keys of `key`, each as a matrix.
pub open spec fn schedule(key: Seq<u8>) -> Seq<Seq<u8>> {
    Seq::new(11, |r: int| transpose(round_key(key, r as nat)))
}

/// The AES-128 encryption of a block of sixteen bytes under a key of sixteen
/// bytes.
pub open spec fn encrypt_block(key: Seq<u8>, block: Seq<u8>) -> Seq<u8> {
    transpose(cipher(schedule(key), transpose(block)))
}

/// The AES-128 decryption of a block of sixteen bytes under a key of sixteen
/// bytes.
pub open spec fn decrypt_block(key: Seq<u8>, block: Seq<u8>) -> Seq<u8> {
    transpose(inv_cipher(schedule(key), transpose(block)))
}

/// For every key and every block of sixteen bytes, decrypting the encrypted
/// block gives the block back.
pub proof fn lemma_block_round_trip(key: Seq<u8>, block: Seq<u8>)
    requires
        block.len() == 16,
    ensures
        decrypt_block(key, encrypt_block(key, block)) == block,
{
    let m = transpose(block);
    lemma_transpose_twice(block);
    lemma_cipher_state_matrix(schedule(key), m, 0);
    lemma_transpose_twice(cipher(schedule(key), m));
    lemma_cipher_inverse(schedule(key), m);
}

} // verus!
