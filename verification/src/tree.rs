//! A first evaluator of truth tables: the two lowest input bits are folded
//! into one of sixteen functions of two bits, whose ciphertexts are computed
//! once, and the six other bits select among them through multiplexers.

use crate::boolean_tree::{table_index, two_to};
use crate::evaluator::{all_usable, plain_bits};
use crate::gates::{
    copy_bit, gate_and, gate_mux, gate_nand, gate_nor, gate_not, gate_or, gate_xnor, gate_xor, key_pair, plain_bit,
    usable,
};
use tfhe::boolean::ciphertext::Ciphertext;
use tfhe::boolean::client_key::ClientKey;
use tfhe::boolean::server_key::ServerKey;
use vstd::prelude::*;

verus! {

/// The functions of input bit 0 alone.
#[allow(non_camel_case_types)]
#[derive(Debug, Clone, Copy, PartialEq, Eq, Structural)]
pub enum Level_0 {
    True,
    False,
    Bit_0,
    Not_Bit_0,
}

impl Level_0 {
    /// The value of the function where input bit 0 is `b0`.
    pub open spec fn value(self, b0: bool) -> bool {
        match self {
            Level_0::True => true,
            Level_0::False => false,
            Level_0::Bit_0 => b0,
            Level_0::Not_Bit_0 => !b0,
        }
    }

    /// The function that is true where bit 0 holds and `right` where it does not.
    fn left_true(right: bool) -> (r: Level_0)
        ensures
            forall|b0: bool| #[trigger] r.value(b0) == (b0 || right),
    {
        match right {
            true => Level_0::True,
            false => Level_0::Bit_0,
        }
    }

    /// The function that is false where bit 0 holds and `right` where it does not.
    fn left_false(right: bool) -> (r: Level_0)
        ensures
            forall|b0: bool| #[trigger] r.value(b0) == (!b0 && right),
    {
        match right {
            true => Level_0::Not_Bit_0,
            false => Level_0::False,
        }
    }

    /// The function that is `left` where bit 0 holds and `right` where it
    /// does not.
    pub fn apply(left: bool, right: bool) -> (r: Level_0)
        ensures
            forall|b0: bool| #[trigger] r.value(b0) == (if b0 { left } else { right }),
    {
        match left {
            true => Self::left_true(right),
            false => Self::left_false(right),
        }
    }

    /// The ciphertext of the function: `true_enc` or its NOT for a constant,
    /// the input or its NOT otherwise.
    pub fn to_cipher_text(self, bit_0: &Ciphertext, true_enc: &Ciphertext, server_key: &ServerKey) -> (r:
        Ciphertext)
        requires
            usable(*server_key, *bit_0),
            usable(*server_key, *true_enc),
        ensures
            usable(*server_key, r),
            forall|ck: ClientKey| #[trigger]
                key_pair(ck, *server_key) && plain_bit(ck, *true_enc) ==> plain_bit(ck, r) == self.value(
                    plain_bit(ck, *bit_0),
                ),
    {
        match self {
            Level_0::True => copy_bit(true_enc),
            Level_0::False => gate_not(server_key, true_enc),
            Level_0::Bit_0 => copy_bit(bit_0),
            Level_0::Not_Bit_0 => gate_not(server_key, bit_0),
        }
    }

    /// The function of bit 0 alone that a function of two bits is, if it is one.
    pub fn try_from(level_1: Level_1) -> (r: Result<Level_0, ()>)
        ensures
            match r {
                Ok(level_0) => forall|b0: bool, b1: bool| #[trigger] level_1.value(b0, b1) == level_0.value(b0),
                Err(_) => level_1 != Level_1::True && level_1 != Level_1::False && level_1 != Level_1::Bit_0
                    && level_1 != Level_1::Not_Bit_0,
            },
    {
        match level_1 {
            Level_1::True => Ok(Level_0::True),
            Level_1::False => Ok(Level_0::False),
            Level_1::Bit_0 => Ok(Level_0::Bit_0),
            Level_1::Not_Bit_0 => Ok(Level_0::Not_Bit_0),
            _ => Err(()),
        }
    }
}

/// The sixteen functions of the input bits 0 and 1.
#[allow(non_camel_case_types)]
#[derive(Debug, Clone, Copy, PartialEq, Eq, Structural)]
pub enum Level_1 {
    True,
    False,
    Bit_0,
    Not_Bit_0,
    Bit_1,
    Not_Bit_1,
    Bit_1_XOR_Bit_0,
    Bit_1_XNOR_Bit_0,
    Bit_1_OR_Bit_0,
    Bit_1_NOR_Bit_0,
    Bit_1_AND_Bit_0,
    Bit_1_NAND_Bit_0,
    Bit_1_AND_Not_Bit_0,
    Bit_1_NAND_Not_Bit_0,
    Bit_1_OR_Not_Bit_0,
    Bit_1_NOR_Not_Bit_0,
}

impl Level_1 {
    /// The value of the function where the input bits 0 and 1 are `b0` and `b1`.
    pub open spec fn value(self, b0: bool, b1: bool) -> bool {
        match self {
            Level_1::True => true,
            Level_1::False => false,
            Level_1::Bit_0 => b0,
            Level_1::Not_Bit_0 => !b0,
            Level_1::Bit_1 => b1,
            Level_1::Not_Bit_1 => !b1,
            Level_1::Bit_1_XOR_Bit_0 => b1 != b0,
            Level_1::Bit_1_XNOR_Bit_0 => b1 == b0,
            Level_1::Bit_1_OR_Bit_0 => b1 || b0,
            Level_1::Bit_1_NOR_Bit_0 => !(b1 || b0),
            Level_1::Bit_1_AND_Bit_0 => b1 && b0,
            Level_1::Bit_1_NAND_Bit_0 => !(b1 && b0),
            Level_1::Bit_1_AND_Not_Bit_0 => b1 && !b0,
            Level_1::Bit_1_NAND_Not_Bit_0 => !(b1 && !b0),
            Level_1::Bit_1_OR_Not_Bit_0 => b1 || !b0,
            Level_1::Bit_1_NOR_Not_Bit_0 => !(b1 || !b0),
        }
    }

    /// The place of the function in the list of all sixteen.
    pub open spec fn rank(self) -> int {
        match self {
            Level_1::True => 0,
            Level_1::False => 1,
            Level_1::Bit_0 => 2,
            Level_1::Not_Bit_0 => 3,
            Level_1::Bit_1 => 4,
            Level_1::Not_Bit_1 => 5,
            Level_1::Bit_1_XOR_Bit_0 => 6,
            Level_1::Bit_1_XNOR_Bit_0 => 7,
            Level_1::Bit_1_OR_Bit_0 => 8,
            Level_1::Bit_1_NOR_Bit_0 => 9,
            Level_1::Bit_1_AND_Bit_0 => 10,
            Level_1::Bit_1_NAND_Bit_0 => 11,
            Level_1::Bit_1_AND_Not_Bit_0 => 12,
            Level_1::Bit_1_NAND_Not_Bit_0 => 13,
            Level_1::Bit_1_OR_Not_Bit_0 => 14,
            Level_1::Bit_1_NOR_Not_Bit_0 => 15,
        }
    }

    /// The function that is true where bit 1 holds and `right` where it does not.
    fn left_true(right: Level_0) -> (r: Level_1)
        ensures
            forall|b0: bool, b1: bool| #[trigger] r.value(b0, b1) == (b1 || right.value(b0)),
    {
        match right {
            Level_0::True => Level_1::True,
            Level_0::False => Level_1::Bit_1,
            Level_0::Bit_0 => Level_1::Bit_1_OR_Bit_0,
            Level_0::Not_Bit_0 => Level_1::Bit_1_OR_Not_Bit_0,
        }
    }

    /// The function that is false where bit 1 holds and `right` where it does not.
    fn left_false(right: Level_0) -> (r: Level_1)
        ensures
            forall|b0: bool, b1: bool| #[trigger] r.value(b0, b1) == (!b1 && right.value(b0)),
    {
        match right {
            Level_0::True => Level_1::Not_Bit_1,
            Level_0::False => Level_1::False,
            Level_0::Bit_0 => Level_1::Bit_1_NOR_Not_Bit_0,
            Level_0::Not_Bit_0 => Level_1::Bit_1_NOR_Bit_0,
        }
    }

    /// The function that is bit 0 where bit 1 holds and `right` where it does not.
    fn left_bit_0(right: Level_0) -> (r: Level_1)
        ensures
            forall|b0: bool, b1: bool| #[trigger] r.value(b0, b1) == (if b1 { b0 } else { right.value(b0) }),
    {
        match right {
            Level_0::True => Level_1::Bit_1_NAND_Not_Bit_0,
            Level_0::False => Level_1::Bit_1_AND_Bit_0,
            Level_0::Bit_0 => Level_1::Bit_0,
            Level_0::Not_Bit_0 => Level_1::Bit_1_XNOR_Bit_0,
        }
    }

    /// The function that is the negated bit 0 where bit 1 holds and `right` where it does not.
    fn left_not_bit_0(right: Level_0) -> (r: Level_1)
        ensures
            forall|b0: bool, b1: bool| #[trigger] r.value(b0, b1) == (if b1 { !b0 } else { right.value(b0) }),
    {
        match right {
            Level_0::True => Level_1::Bit_1_NAND_Bit_0,
            Level_0::False => Level_1::Bit_1_AND_Not_Bit_0,
            Level_0::Bit_0 => Level_1::Bit_1_XOR_Bit_0,
            Level_0::Not_Bit_0 => Level_1::Not_Bit_0,
        }
    }

    /// The function that is `left` where bit 1 holds and `right` where it
    /// does not.
    pub fn apply(left: Level_0, right: Level_0) -> (r: Level_1)
        ensures
            forall|b0: bool, b1: bool| #[trigger] r.value(b0, b1) == (if b1 { left.value(b0) } else { right.value(b0) }),
    {
        match left {
            Level_0::True => Self::left_true(right),
            Level_0::False => Self::left_false(right),
            Level_0::Bit_0 => Self::left_bit_0(right),
            Level_0::Not_Bit_0 => Self::left_not_bit_0(right),
        }
    }

    /// The place of the function in the list of all sixteen.
    pub fn index(&self) -> (r: usize)
        ensures
            r == self.rank(),
    {
        match self {
            Level_1::True => 0,
            Level_1::False => 1,
            Level_1::Bit_0 => 2,
            Level_1::Not_Bit_0 => 3,
            Level_1::Bit_1 => 4,
            Level_1::Not_Bit_1 => 5,
            Level_1::Bit_1_XOR_Bit_0 => 6,
            Level_1::Bit_1_XNOR_Bit_0 => 7,
            Level_1::Bit_1_OR_Bit_0 => 8,
            Level_1::Bit_1_NOR_Bit_0 => 9,
            Level_1::Bit_1_AND_Bit_0 => 10,
            Level_1::Bit_1_NAND_Bit_0 => 11,
            Level_1::Bit_1_AND_Not_Bit_0 => 12,
            Level_1::Bit_1_NAND_Not_Bit_0 => 13,
            Level_1::Bit_1_OR_Not_Bit_0 => 14,
            Level_1::Bit_1_NOR_Not_Bit_0 => 15,
        }
    }

    /// All sixteen functions, each at its place.
    pub fn all() -> (r: Vec<Level_1>)
        ensures
            r.len() == 16,
            forall|i: int| 0 <= i < 16 ==> (#[trigger] r[i]).rank() == i,
    {
        vec![
            Level_1::True,
            Level_1::False,
            Level_1::Bit_0,
            Level_1::Not_Bit_0,
            Level_1::Bit_1,
            Level_1::Not_Bit_1,
            Level_1::Bit_1_XOR_Bit_0,
            Level_1::Bit_1_XNOR_Bit_0,
            Level_1::Bit_1_OR_Bit_0,
            Level_1::Bit_1_NOR_Bit_0,
            Level_1::Bit_1_AND_Bit_0,
            Level_1::Bit_1_NAND_Bit_0,
            Level_1::Bit_1_AND_Not_Bit_0,
            Level_1::Bit_1_NAND_Not_Bit_0,
            Level_1::Bit_1_OR_Not_Bit_0,
            Level_1::Bit_1_NOR_Not_Bit_0,
        ]
    }

    /// The ciphertext of the function: one gate on the two inputs, after a
    /// NOT of bit 0 where the function reads it negated.
    pub fn to_cipher_text(
        &self,
        bit_0: &Ciphertext,
        bit_1: &Ciphertext,
        true_enc: &Ciphertext,
        server_key: &ServerKey,
    ) -> (r: Ciphertext)
        requires
            usable(*server_key, *bit_0),
            usable(*server_key, *bit_1),
            usable(*server_key, *true_enc),
        ensures
            usable(*server_key, r),
            forall|ck: ClientKey| #[trigger]
                key_pair(ck, *server_key) && plain_bit(ck, *true_enc) ==> plain_bit(ck, r) == self.value(
                    plain_bit(ck, *bit_0),
                    plain_bit(ck, *bit_1),
                ),
    {
        match Level_0::try_from(*self) {
            Ok(level_0) => level_0.to_cipher_text(bit_0, true_enc, server_key),
            Err(_) => match self {
                Level_1::Bit_1 => copy_bit(bit_1),
                Level_1::Not_Bit_1 => gate_not(server_key, bit_1),
                Level_1::Bit_1_XOR_Bit_0 => gate_xor(server_key, bit_1, bit_0),
                Level_1::Bit_1_XNOR_Bit_0 => gate_xnor(server_key, bit_1, bit_0),
                Level_1::Bit_1_OR_Bit_0 => gate_or(server_key, bit_1, bit_0),
                Level_1::Bit_1_NOR_Bit_0 => gate_nor(server_key, bit_1, bit_0),
                Level_1::Bit_1_AND_Bit_0 => gate_and(server_key, bit_1, bit_0),
                Level_1::Bit_1_NAND_Bit_0 => gate_nand(server_key, bit_1, bit_0),
                Level_1::Bit_1_AND_Not_Bit_0 => gate_and(server_key, bit_1, &gate_not(server_key, bit_0)),
                Level_1::Bit_1_NAND_Not_Bit_0 => gate_nand(server_key, bit_1, &gate_not(server_key, bit_0)),
                Level_1::Bit_1_OR_Not_Bit_0 => gate_or(server_key, bit_1, &gate_not(server_key, bit_0)),
                Level_1::Bit_1_NOR_Not_Bit_0 => gate_nor(server_key, bit_1, &gate_not(server_key, bit_0)),
                _ => vstd::pervasive::unreached(),
            },
        }
    }
}


/// The entry of a table that an assignment selects among the entries of
/// block `j`, where the table is cut into blocks of `two_to(width)` entries
/// and the first `width` input bits select inside a block.
pub open spec fn entry_in_block(bits: Seq<bool>, j: int, width: nat) -> int {
    j * two_to(width) + table_index(bits, 0, width)
}

/// One more input bit selects between two neighbouring blocks.
pub proof fn lemma_table_index_step(bits: Seq<bool>, level: int, width: nat)
    ensures
        table_index(bits, level, width + 1) == table_index(bits, level, width) + (if bits[level + width] {
            0int
        } else {
            two_to(width) as int
        }),
    decreases width,
{
    if width == 0 {
        assert(table_index(bits, level + 1, 0) == 0);
        assert(table_index(bits, level, 0) == 0);
        assert(two_to(0) == 1);
        assert(table_index(bits, level, 1) == (if bits[level] { 0int } else { 1int }) + 2 * table_index(
            bits,
            level + 1,
            0,
        ));
    } else {
        lemma_table_index_step(bits, level + 1, (width - 1) as nat);
        let first = if bits[level] { 0int } else { 1int };
        let last = if bits[level + width] { 0int } else { two_to((width - 1) as nat) as int };
        assert(table_index(bits, level, width + 1) == first + 2 * table_index(bits, level + 1, width));
        assert(table_index(bits, level, width) == first + 2 * table_index(bits, level + 1, (width - 1) as nat));
        assert(table_index(bits, level + 1, width) == table_index(bits, level + 1, (width - 1) as nat) + last);
        assert(two_to(width) == 2 * two_to((width - 1) as nat));
    }
}

/// The entry that `width + 1` bits select in block `j` is the entry that
/// `width` bits select in one of the two halves of the block.
pub proof fn lemma_entry_in_block_step(bits: Seq<bool>, j: int, width: nat)
    ensures
        entry_in_block(bits, j, width + 1) == entry_in_block(
            bits,
            2 * j + (if bits[width as int] {
                0int
            } else {
                1int
            }),
            width,
        ),
{
    lemma_table_index_step(bits, 0, width);
    let power = two_to(width) as int;
    assert(two_to(width + 1) == 2 * power);
    assert(j * (2 * power) == (2 * j) * power) by (nonlinear_arith);
    assert((2 * j + 1) * power == (2 * j) * power + power) by (nonlinear_arith);
}

/// Folds the two lowest input bits: every four entries of the table become
/// one function of the bits 0 and 1.
pub fn reduce_4(leaves: &Vec<bool>) -> (r: Vec<Level_1>)
    requires
        leaves.len() % 4 == 0,
    ensures
        r.len() == leaves.len() / 4,
        forall|j: int, b0: bool, b1: bool|
            0 <= j < r.len() ==> #[trigger] r[j].value(b0, b1) == leaves[4 * j + (if b0 {
                0int
            } else {
                1int
            }) + (if b1 {
                0int
            } else {
                2int
            })],
{
    let count: usize = leaves.len() / 4;
    let mut out: Vec<Level_1> = Vec::with_capacity(count);
    let mut j: usize = 0;
    while j < count
        invariant
            j <= count,
            count == leaves.len() / 4,
            leaves.len() % 4 == 0,
            out.len() == j,
            forall|t: int, b0: bool, b1: bool|
                0 <= t < j ==> #[trigger] out[t].value(b0, b1) == leaves[4 * t + (if b0 {
                    0int
                } else {
                    1int
                }) + (if b1 {
                    0int
                } else {
                    2int
                })],
        decreases count - j,
    {
        let low = Level_0::apply(leaves[4 * j], leaves[4 * j + 1]);
        let high = Level_0::apply(leaves[4 * j + 2], leaves[4 * j + 3]);
        let both = Level_1::apply(low, high);
        proof {
            assert forall|b0: bool, b1: bool| #[trigger]
                both.value(b0, b1) == leaves[4 * j + (if b0 {
                    0int
                } else {
                    1int
                }) + (if b1 {
                    0int
                } else {
                    2int
                })] by {
                assert(low.value(b0) == (if b0 {
                    leaves[4 * j as int]
                } else {
                    leaves[4 * j + 1]
                }));
                assert(high.value(b0) == (if b0 {
                    leaves[4 * j + 2]
                } else {
                    leaves[4 * j + 3]
                }));
            }
        }
        out.push(both);
        j += 1;
    }
    out
}

/// The ciphertext of every function of a row.
pub fn to_ciphertext(
    level_1: &Vec<Level_1>,
    bit_0: &Ciphertext,
    bit_1: &Ciphertext,
    true_enc: &Ciphertext,
    server_key: &ServerKey,
) -> (r: Vec<Ciphertext>)
    requires
        usable(*server_key, *bit_0),
        usable(*server_key, *bit_1),
        usable(*server_key, *true_enc),
    ensures
        r.len() == level_1.len(),
        all_usable(*server_key, r@),
        forall|ck: ClientKey, j: int|
            #![trigger key_pair(ck, *server_key), r[j]]
            key_pair(ck, *server_key) && plain_bit(ck, *true_enc) && 0 <= j < r.len() ==> plain_bit(ck, r[j])
                == level_1[j].value(plain_bit(ck, *bit_0), plain_bit(ck, *bit_1)),
{
    let mut out: Vec<Ciphertext> = Vec::with_capacity(level_1.len());
    let mut j: usize = 0;
    while j < level_1.len()
        invariant
            j <= level_1.len(),
            out.len() == j,
            usable(*server_key, *bit_0),
            usable(*server_key, *bit_1),
            usable(*server_key, *true_enc),
            all_usable(*server_key, out@),
            forall|ck: ClientKey, t: int|
                #![trigger key_pair(ck, *server_key), out[t]]
                key_pair(ck, *server_key) && plain_bit(ck, *true_enc) && 0 <= t < j ==> plain_bit(ck, out[t])
                    == level_1[t].value(plain_bit(ck, *bit_0), plain_bit(ck, *bit_1)),
        decreases level_1.len() - j,
    {
        out.push(level_1[j].to_cipher_text(bit_0, bit_1, true_enc, server_key));
        j += 1;
    }
    out
}

/// Evaluates a truth table of 256 entries on eight encrypted bits: the
/// sixteen functions of the bits 0 and 1 are computed once, every four
/// entries of the table pick one of them, and the bits 2 to 7 select among
/// the picks through six levels of multiplexers. `true_enc` has to be a
/// ciphertext of `true`; the result decrypts to the entry that the bits
/// select, as `table_index` counts it.
pub fn reduce(leaves: &Vec<bool>, bits: &Vec<Ciphertext>, true_enc: &Ciphertext, server_key: &ServerKey) -> (r:
    Ciphertext)
    requires
        leaves.len() == 256,
        bits.len() >= 8,
        all_usable(*server_key, bits@),
        usable(*server_key, *true_enc),
    ensures
        usable(*server_key, r),
        forall|ck: ClientKey| 0 <= #[trigger] table_index(plain_bits(ck, bits@), 0, 8) < 256,
        forall|ck: ClientKey| #[trigger]
            key_pair(ck, *server_key) && plain_bit(ck, *true_enc) ==> plain_bit(ck, r) == leaves[table_index(
                plain_bits(ck, bits@),
                0,
                8,
            )],
{
    proof {
        assert forall|ck: ClientKey| 0 <= #[trigger] table_index(plain_bits(ck, bits@), 0, 8) < 256 by {
            crate::boolean_tree::lemma_table_index_bound(plain_bits(ck, bits@), 0, 8);
            reveal_with_fuel(two_to, 9);
        }
    }
    let level_1 = reduce_4(leaves);
    let kinds = Level_1::all();
    let all_variants = to_ciphertext(&kinds, &bits[0], &bits[1], true_enc, server_key);
    let mut cur: Vec<Ciphertext> = Vec::with_capacity(64);
    let mut j: usize = 0;
    while j < level_1.len()
        invariant
            j <= level_1.len(),
            level_1.len() == 64,
            cur.len() == j,
            all_variants.len() == 16,
            all_usable(*server_key, all_variants@),
            all_usable(*server_key, cur@),
            forall|t: int| 0 <= t < j ==> cur[t] == all_variants[level_1[t].rank()],
        decreases level_1.len() - j,
    {
        cur.push(copy_bit(&all_variants[level_1[j].index()]));
        j += 1;
    }
    proof {
        reveal_with_fuel(two_to, 9);
        reveal_with_fuel(table_index, 3);
        assert forall|ck: ClientKey, t: int|
            #![trigger key_pair(ck, *server_key), cur[t]]
            key_pair(ck, *server_key) && plain_bit(ck, *true_enc) && 0 <= t < 64 implies plain_bit(ck, cur[t])
            == leaves[entry_in_block(plain_bits(ck, bits@), t, 2)] by {
            let kind = level_1[t];
            let plain = plain_bits(ck, bits@);
            let b0 = plain_bit(ck, bits[0]);
            let b1 = plain_bit(ck, bits[1]);
            assert(kind.value(b0, b1) == leaves[4 * t + (if b0 { 0int } else { 1int }) + (if b1 { 0int } else { 2int })]);
            assert(table_index(plain, 0, 2) == (if plain[0] { 0int } else { 1int }) + 2 * ((if plain[1] {
                0int
            } else {
                1int
            }) + 2 * 0));
            assert(two_to(2) == 4);
            assert(entry_in_block(plain, t, 2) == 4 * t + table_index(plain, 0, 2));
            assert(kinds[kind.rank()].rank() == kind.rank());
            assert(kinds[kind.rank()] == kind);
            assert(cur[t] == all_variants[kind.rank()]);
            assert(plain_bit(ck, all_variants[kind.rank()]) == kinds[kind.rank()].value(
                plain_bit(ck, bits[0]),
                plain_bit(ck, bits[1]),
            ));
            assert(plain_bits(ck, bits@)[0] == plain_bit(ck, bits[0]));
            assert(plain_bits(ck, bits@)[1] == plain_bit(ck, bits[1]));
        }
    }
    let mut width: usize = 2;
    while width < 8
        invariant
            2 <= width <= 8,
            bits.len() >= 8,
            all_usable(*server_key, bits@),
            cur.len() == two_to((8 - width) as nat),
            all_usable(*server_key, cur@),
            forall|ck: ClientKey, t: int|
                #![trigger key_pair(ck, *server_key), cur[t]]
                key_pair(ck, *server_key) && plain_bit(ck, *true_enc) && 0 <= t < cur.len() ==> plain_bit(ck, cur[t])
                    == leaves[entry_in_block(plain_bits(ck, bits@), t, width as nat)],
        decreases 8 - width,
    {
        let half: usize = cur.len() / 2;
        proof {
            assert(two_to((8 - width) as nat) == 2 * two_to((8 - width - 1) as nat));
        }
        let mut next: Vec<Ciphertext> = Vec::with_capacity(half);
        let mut t: usize = 0;
        while t < half
            invariant
                t <= half,
                2 <= width < 8,
                bits.len() >= 8,
                all_usable(*server_key, bits@),
                cur.len() == 2 * half,
                all_usable(*server_key, cur@),
                next.len() == t,
                all_usable(*server_key, next@),
                forall|ck: ClientKey, u: int|
                    #![trigger key_pair(ck, *server_key), next[u]]
                    key_pair(ck, *server_key) && 0 <= u < t ==> plain_bit(ck, next[u]) == (if plain_bit(
                        ck,
                        bits[width as int],
                    ) {
                        plain_bit(ck, cur[2 * u])
                    } else {
                        plain_bit(ck, cur[2 * u + 1])
                    }),
            decreases half - t,
        {
            next.push(gate_mux(server_key, &bits[width], &cur[2 * t], &cur[2 * t + 1]));
            t += 1;
        }
        proof {
            assert forall|ck: ClientKey, u: int|
                #![trigger key_pair(ck, *server_key), next[u]]
                key_pair(ck, *server_key) && plain_bit(ck, *true_enc) && 0 <= u < next.len() implies plain_bit(
                ck,
                next[u],
            ) == leaves[entry_in_block(plain_bits(ck, bits@), u, (width + 1) as nat)] by {
                let plain = plain_bits(ck, bits@);
                lemma_entry_in_block_step(plain, u, width as nat);
                assert(plain[width as int] == plain_bit(ck, bits[width as int]));
                assert(plain_bit(ck, cur[2 * u]) == leaves[entry_in_block(plain, 2 * u, width as nat)]);
                assert(plain_bit(ck, cur[2 * u + 1]) == leaves[entry_in_block(plain, 2 * u + 1, width as nat)]);
            }
        }
        cur = next;
        width += 1;
    }
    proof {
        assert(two_to(0) == 1);
        assert forall|ck: ClientKey| #[trigger] key_pair(ck, *server_key) && plain_bit(ck, *true_enc) implies plain_bit(
            ck,
            cur[0],
        ) == leaves[table_index(plain_bits(ck, bits@), 0, 8)] by {
            assert(entry_in_block(plain_bits(ck, bits@), 0, 8) == table_index(plain_bits(ck, bits@), 0, 8)) by {
                assert(0 * two_to(8) == 0) by (nonlinear_arith);
            }
        }
    }
    copy_bit(&cur[0])
}

} // verus!
