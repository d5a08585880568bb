//! The AES substitution boxes, and their compilation into Boolean expressions.

use crate::boolean_tree::{
    lemma_reduce_depth, reduce_from, selected, table_index, two_to, width_of, BooleanExpr, Operand,
};
use crate::bytes::{bit_at, bits_of, lemma_pack_bits, pack};
use crate::evaluator::StagedEvaluator;
use vstd::prelude::*;

verus! {

/// The Rijndael substitution box.
pub const S_BOX_DATA: [u8; 256] = [
    0x63, 0x7c, 0x77, 0x7b, 0xf2, 0x6b, 0x6f, 0xc5, 0x30, 0x01, 0x67, 0x2b, 0xfe, 0xd7, 0xab, 0x76,
    0xca, 0x82, 0xc9, 0x7d, 0xfa, 0x59, 0x47, 0xf0, 0xad, 0xd4, 0xa2, 0xaf, 0x9c, 0xa4, 0x72, 0xc0,
    0xb7, 0xfd, 0x93, 0x26, 0x36, 0x3f, 0xf7, 0xcc, 0x34, 0xa5, 0xe5, 0xf1, 0x71, 0xd8, 0x31, 0x15,
    0x04, 0xc7, 0x23, 0xc3, 0x18, 0x96, 0x05, 0x9a, 0x07, 0x12, 0x80, 0xe2, 0xeb, 0x27, 0xb2, 0x75,
    0x09, 0x83, 0x2c, 0x1a, 0x1b, 0x6e, 0x5a, 0xa0, 0x52, 0x3b, 0xd6, 0xb3, 0x29, 0xe3, 0x2f, 0x84,
    0x53, 0xd1, 0x00, 0xed, 0x20, 0xfc, 0xb1, 0x5b, 0x6a, 0xcb, 0xbe, 0x39, 0x4a, 0x4c, 0x58, 0xcf,
    0xd0, 0xef, 0xaa, 0xfb, 0x43, 0x4d, 0x33, 0x85, 0x45, 0xf9, 0x02, 0x7f, 0x50, 0x3c, 0x9f, 0xa8,
    0x51, 0xa3, 0x40, 0x8f, 0x92, 0x9d, 0x38, 0xf5, 0xbc, 0xb6, 0xda, 0x21, 0x10, 0xff, 0xf3, 0xd2,
    0xcd, 0x0c, 0x13, 0xec, 0x5f, 0x97, 0x44, 0x17, 0xc4, 0xa7, 0x7e, 0x3d, 0x64, 0x5d, 0x19, 0x73,
    0x60, 0x81, 0x4f, 0xdc, 0x22, 0x2a, 0x90, 0x88, 0x46, 0xee, 0xb8, 0x14, 0xde, 0x5e, 0x0b, 0xdb,
    0xe0, 0x32, 0x3a, 0x0a, 0x49, 0x06, 0x24, 0x5c, 0xc2, 0xd3, 0xac, 0x62, 0x91, 0x95, 0xe4, 0x79,
    0xe7, 0xc8, 0x37, 0x6d, 0x8d, 0xd5, 0x4e, 0xa9, 0x6c, 0x56, 0xf4, 0xea, 0x65, 0x7a, 0xae, 0x08,
    0xba, 0x78, 0x25, 0x2e, 0x1c, 0xa6, 0xb4, 0xc6, 0xe8, 0xdd, 0x74, 0x1f, 0x4b, 0xbd, 0x8b, 0x8a,
    0x70, 0x3e, 0xb5, 0x66, 0x48, 0x03, 0xf6, 0x0e, 0x61, 0x35, 0x57, 0xb9, 0x86, 0xc1, 0x1d, 0x9e,
    0xe1, 0xf8, 0x98, 0x11, 0x69, 0xd9, 0x8e, 0x94, 0x9b, 0x1e, 0x87, 0xe9, 0xce, 0x55, 0x28, 0xdf,
    0x8c, 0xa1, 0x89, 0x0d, 0xbf, 0xe6, 0x42, 0x68, 0x41, 0x99, 0x2d, 0x0f, 0xb0, 0x54, 0xbb, 0x16,
];

/// The inverse of the Rijndael substitution box.
pub const INV_S_BOX_DATA: [u8; 256] = [
    0x52, 0x09, 0x6a, 0xd5, 0x30, 0x36, 0xa5, 0x38, 0xbf, 0x40, 0xa3, 0x9e, 0x81, 0xf3, 0xd7, 0xfb,
    0x7c, 0xe3, 0x39, 0x82, 0x9b, 0x2f, 0xff, 0x87, 0x34, 0x8e, 0x43, 0x44, 0xc4, 0xde, 0xe9, 0xcb,
    0x54, 0x7b, 0x94, 0x32, 0xa6, 0xc2, 0x23, 0x3d, 0xee, 0x4c, 0x95, 0x0b, 0x42, 0xfa, 0xc3, 0x4e,
    0x08, 0x2e, 0xa1, 0x66, 0x28, 0xd9, 0x24, 0xb2, 0x76, 0x5b, 0xa2, 0x49, 0x6d, 0x8b, 0xd1, 0x25,
    0x72, 0xf8, 0xf6, 0x64, 0x86, 0x68, 0x98, 0x16, 0xd4, 0xa4, 0x5c, 0xcc, 0x5d, 0x65, 0xb6, 0x92,
    0x6c, 0x70, 0x48, 0x50, 0xfd, 0xed, 0xb9, 0xda, 0x5e, 0x15, 0x46, 0x57, 0xa7, 0x8d, 0x9d, 0x84,
    0x90, 0xd8, 0xab, 0x00, 0x8c, 0xbc, 0xd3, 0x0a, 0xf7, 0xe4, 0x58, 0x05, 0xb8, 0xb3, 0x45, 0x06,
    0xd0, 0x2c, 0x1e, 0x8f, 0xca, 0x3f, 0x0f, 0x02, 0xc1, 0xaf, 0xbd, 0x03, 0x01, 0x13, 0x8a, 0x6b,
    0x3a, 0x91, 0x11, 0x41, 0x4f, 0x67, 0xdc, 0xea, 0x97, 0xf2, 0xcf, 0xce, 0xf0, 0xb4, 0xe6, 0x73,
    0x96, 0xac, 0x74, 0x22, 0xe7, 0xad, 0x35, 0x85, 0xe2, 0xf9, 0x37, 0xe8, 0x1c, 0x75, 0xdf, 0x6e,
    0x47, 0xf1, 0x1a, 0x71, 0x1d, 0x29, 0xc5, 0x89, 0x6f, 0xb7, 0x62, 0x0e, 0xaa, 0x18, 0xbe, 0x1b,
    0xfc, 0x56, 0x3e, 0x4b, 0xc6, 0xd2, 0x79, 0x20, 0x9a, 0xdb, 0xc0, 0xfe, 0x78, 0xcd, 0x5a, 0xf4,
    0x1f, 0xdd, 0xa8, 0x33, 0x88, 0x07, 0xc7, 0x31, 0xb1, 0x12, 0x10, 0x59, 0x27, 0x80, 0xec, 0x5f,
    0x60, 0x51, 0x7f, 0xa9, 0x19, 0xb5, 0x4a, 0x0d, 0x2d, 0xe5, 0x7a, 0x9f, 0x93, 0xc9, 0x9c, 0xef,
    0xa0, 0xe0, 0x3b, 0x4d, 0xae, 0x2a, 0xf5, 0xb0, 0xc8, 0xeb, 0xbb, 0x3c, 0x83, 0x53, 0x99, 0x61,
    0x17, 0x2b, 0x04, 0x7e, 0xba, 0x77, 0xd6, 0x26, 0xe1, 0x69, 0x14, 0x63, 0x55, 0x21, 0x0c, 0x7d,
];

/// The substitution of one byte.
pub open spec fn sbox(b: u8) -> u8 {
    S_BOX_DATA[b as int]
}

/// The inverse substitution of one byte.
pub open spec fn inv_sbox(b: u8) -> u8 {
    INV_S_BOX_DATA[b as int]
}

/// The two substitution boxes are inverse to each other.
pub proof fn lemma_sbox_inverse()
    ensures
        forall|b: u8| inv_sbox(sbox(b)) == b,
        forall|b: u8| sbox(inv_sbox(b)) == b,
{
}


/// The byte that selects entry `index` of a truth table of 256 entries: its
/// bit `k`, counted from the most significant, is set where bit `k` of
/// `index`, counted from the least significant, is clear.
pub open spec fn input_of(index: u8) -> u8 {
    pack(
        index & 0x01 == 0,
        index & 0x02 == 0,
        index & 0x04 == 0,
        index & 0x08 == 0,
        index & 0x10 == 0,
        index & 0x20 == 0,
        index & 0x40 == 0,
        index & 0x80 == 0,
    )
}

/// The truth table of output bit `j` of a substitution box, in the order of
/// the fold: entry `i` is the bit for the input byte that selects entry `i`.
pub open spec fn truth_table(table: Seq<u8>, j: int) -> Seq<bool> {
    Seq::new(256, |i: int| bit_at(table[input_of(i as u8) as int], j))
}

/// The entry that an assignment of eight bits selects, written out.
proof fn lemma_table_index_unfolded(bits: Seq<bool>)
    ensures
        table_index(bits, 0, 8) == (if bits[0] { 0int } else { 1int }) + (if bits[1] { 0int } else { 2int }) + (if bits[2] {
            0int
        } else {
            4int
        }) + (if bits[3] { 0int } else { 8int }) + (if bits[4] { 0int } else { 16int }) + (if bits[5] {
            0int
        } else {
            32int
        }) + (if bits[6] { 0int } else { 64int }) + (if bits[7] { 0int } else { 128int }),
{
    reveal_with_fuel(table_index, 9);
}

/// The sum that selects an entry is the byte of the negated bits in
/// reverse order.
proof fn lemma_index_packed(a0: bool, a1: bool, a2: bool, a3: bool, a4: bool, a5: bool, a6: bool, a7: bool)
    ensures
        (if a0 { 0int } else { 1int }) + (if a1 { 0int } else { 2int }) + (if a2 { 0int } else { 4int }) + (if a3 {
            0int
        } else {
            8int
        }) + (if a4 { 0int } else { 16int }) + (if a5 { 0int } else { 32int }) + (if a6 { 0int } else { 64int }) + (if a7 {
            0int
        } else {
            128int
        }) == pack(!a7, !a6, !a5, !a4, !a3, !a2, !a1, !a0),
{
    reveal(pack);
}

/// The byte that selects the entry of the negated, reversed bits has the bits.
proof fn lemma_input_of_packed(a0: bool, a1: bool, a2: bool, a3: bool, a4: bool, a5: bool, a6: bool, a7: bool)
    by (bit_vector)
    ensures
        input_of(pack(!a7, !a6, !a5, !a4, !a3, !a2, !a1, !a0)) == pack(a0, a1, a2, a3, a4, a5, a6, a7),
{
}

/// The assignment of the bits of `x` selects the entry of `x`.
#[verifier::rlimit(50)]
pub proof fn lemma_index_of_input(x: u8)
    ensures
        0 <= table_index(bits_of(x), 0, 8) < 256,
        input_of(table_index(bits_of(x), 0, 8) as u8) == x,
{
    let bits = bits_of(x);
    lemma_table_index_unfolded(bits);
    lemma_index_packed(bits[0], bits[1], bits[2], bits[3], bits[4], bits[5], bits[6], bits[7]);
    lemma_input_of_packed(bits[0], bits[1], bits[2], bits[3], bits[4], bits[5], bits[6], bits[7]);
    lemma_pack_bits(x);
}

/// The byte that selects entry `index`.
fn input_at(index: u8) -> (r: u8)
    ensures
        r == input_of(index),
{
    let b0: u8 = if index & 0x01 == 0 { 128 } else { 0 };
    let b1: u8 = if index & 0x02 == 0 { 64 } else { 0 };
    let b2: u8 = if index & 0x04 == 0 { 32 } else { 0 };
    let b3: u8 = if index & 0x08 == 0 { 16 } else { 0 };
    let b4: u8 = if index & 0x10 == 0 { 8 } else { 0 };
    let b5: u8 = if index & 0x20 == 0 { 4 } else { 0 };
    let b6: u8 = if index & 0x40 == 0 { 2 } else { 0 };
    let b7: u8 = if index & 0x80 == 0 { 1 } else { 0 };
    proof {
        reveal(pack);
    }
    b0 + b1 + b2 + b3 + b4 + b5 + b6 + b7
}

/// Bit `i` of a byte, counted from the most significant bit.
pub fn bit_of_u8(b: u8, i: usize) -> (r: bool)
    requires
        i < 8,
    ensures
        r == bit_at(b, i as int),
{
    if i == 0 {
        b & 0x80 != 0
    } else if i == 1 {
        b & 0x40 != 0
    } else if i == 2 {
        b & 0x20 != 0
    } else if i == 3 {
        b & 0x10 != 0
    } else if i == 4 {
        b & 0x08 != 0
    } else if i == 5 {
        b & 0x04 != 0
    } else if i == 6 {
        b & 0x02 != 0
    } else {
        b & 0x01 != 0
    }
}

/// The expressions of a substitution box are what the fold makes of its
/// eight truth tables.
pub open spec fn compiled(roots: Seq<BooleanExpr>, table: Seq<u8>) -> bool {
    roots.len() == 8 && forall|j: int|
        0 <= j < 8 ==> #[trigger] roots[j] == reduce_from(
            truth_table(table, j).map_values(
                |v: bool|
                    BooleanExpr::Operand(
                        if v {
                            Operand::True
                        } else {
                            Operand::False
                        },
                    ),
            ),
            0,
        )
}

/// Expression `j` has, at the bits of every byte, the value of bit `j` of the
/// byte's substitute.
pub open spec fn represents(roots: Seq<BooleanExpr>, table: Seq<u8>) -> bool {
    roots.len() == 8 && forall|j: int, x: u8|
        0 <= j < 8 ==> #[trigger] roots[j].eval(bits_of(x)) == bit_at(table[x as int], j)
}

/// Compiles a substitution box: one expression for each of the eight output
/// bits, most significant first, folded from the truth table of that bit.
/// Input bit 0 of the expressions is the most significant bit of the byte.
#[verifier::rlimit(50)]
pub fn generate_reduced_bool_expr(table: &[u8; 256]) -> (roots: Vec<BooleanExpr>)
    ensures
        compiled(roots@, table@),
        represents(roots@, table@),
        forall|j: int| 0 <= j < 8 ==> (#[trigger] roots[j]).depth() <= 8,
{
    let mut roots: Vec<BooleanExpr> = Vec::with_capacity(8);
    let mut j: usize = 0;
    while j < 8
        invariant
            j <= 8,
            roots.len() == j,
            forall|k: int|
                0 <= k < j ==> #[trigger] roots[k] == reduce_from(
                    truth_table(table@, k).map_values(
                        |v: bool|
                            BooleanExpr::Operand(
                                if v {
                                    Operand::True
                                } else {
                                    Operand::False
                                },
                            ),
                    ),
                    0,
                ),
            forall|k: int, x: u8|
                0 <= k < j ==> #[trigger] roots[k].eval(bits_of(x)) == bit_at(table[x as int], k),
            forall|k: int| 0 <= k < j ==> (#[trigger] roots[k]).depth() <= 8,
        decreases 8 - j,
    {
        let mut truth: Vec<bool> = Vec::with_capacity(256);
        let mut i: usize = 0;
        while i < 256
            invariant
                i <= 256,
                j < 8,
                truth.len() == i,
                forall|t: int| 0 <= t < i ==> truth[t] == bit_at(table[input_of(t as u8) as int], j as int),
            decreases 256 - i,
        {
            truth.push(bit_of_u8(table[input_at(i as u8) as usize], j));
            i += 1;
        }
        assert(truth@ =~= truth_table(table@, j as int));
        let items = BooleanExpr::from_bool_vec(truth.as_slice());
        proof {
            reveal_with_fuel(width_of, 10);
            reveal_with_fuel(two_to, 10);
            assert(width_of(256) == 8);
            assert(two_to(8) == 256);
        }
        let root = BooleanExpr::reduce_mux(&items);
        proof {
            let lifted = truth_table(table@, j as int).map_values(
                |v: bool|
                    BooleanExpr::Operand(
                        if v {
                            Operand::True
                        } else {
                            Operand::False
                        },
                    ),
            );
            assert(items@ =~= lifted);
            lemma_reduce_depth(items@, 0, 0);
            assert forall|x: u8| #[trigger] root.eval(bits_of(x)) == bit_at(table[x as int], j as int) by {
                lemma_index_of_input(x);
                let index = table_index(bits_of(x), 0, 8);
                assert(root.eval(bits_of(x)) == selected(items@, bits_of(x)).eval(bits_of(x)));
                assert(selected(items@, bits_of(x)) == items[index]);
            }
        }
        roots.push(root);
        j += 1;
    }
    roots
}

/// The compiled substitution boxes: the staged evaluators of the S-box and of
/// its inverse, built once and shared by every substitution.
pub struct SBoxTables {
    forward: StagedEvaluator,
    inverse: StagedEvaluator,
}

impl SBoxTables {
    /// The evaluator of the S-box.
    pub closed spec fn forward_plan(&self) -> StagedEvaluator {
        self.forward
    }

    /// The evaluator of the inverse S-box.
    pub closed spec fn inverse_plan(&self) -> StagedEvaluator {
        self.inverse
    }

    /// Both evaluators are well formed, and their roots are the compiled
    /// expressions of the two boxes.
    pub open spec fn wf(&self) -> bool {
        &&& self.forward_plan().wf()
        &&& self.inverse_plan().wf()
        &&& compiled(self.forward_plan().root_seq(), S_BOX_DATA@)
        &&& compiled(self.inverse_plan().root_seq(), INV_S_BOX_DATA@)
        &&& represents(self.forward_plan().root_seq(), S_BOX_DATA@)
        &&& represents(self.inverse_plan().root_seq(), INV_S_BOX_DATA@)
    }

    /// Compiles both boxes and plans their evaluation.
    pub fn new() -> (r: SBoxTables)
        ensures
            r.wf(),
    {
        let forward = StagedEvaluator::new(generate_reduced_bool_expr(&S_BOX_DATA));
        let inverse = StagedEvaluator::new(generate_reduced_bool_expr(&INV_S_BOX_DATA));
        SBoxTables { forward, inverse }
    }

    /// The evaluator of the S-box.
    pub fn forward(&self) -> (r: &StagedEvaluator)
        ensures
            *r == self.forward_plan(),
    {
        &self.forward
    }

    /// The evaluator of the inverse S-box.
    pub fn inverse(&self) -> (r: &StagedEvaluator)
        ensures
            *r == self.inverse_plan(),
    {
        &self.inverse
    }
}

} // verus!
