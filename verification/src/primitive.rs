//! The encrypted byte: eight ciphertexts, most significant bit first.

use crate::bytes::{
    bit_at, bits_of, lemma_byte_ops, lemma_byte_xtime, lemma_pack_bits, lemma_pack_unique, lemma_rotl_bits,
    lemma_rotr_bits, lemma_shl_bits, lemma_shr_bits, lemma_value_bits, pack, pack_seq, rotl, rotr, shl, shr, xtime,
};
use crate::evaluator::{all_usable, computes, plain_bits, StagedEvaluator};
use crate::gates::{
    copy_bit, decrypt_bit, encrypt_bit, gate_and, gate_mux, gate_not, gate_or, gate_xor, key_pair, plain_bit,
    trivial_bit, usable,
};
use crate::sbox::{
    bit_of_u8, generate_reduced_bool_expr, inv_sbox, represents, sbox, SBoxTables, INV_S_BOX_DATA, S_BOX_DATA,
};
use rayon::iter::{IndexedParallelIterator, IntoParallelRefIterator, ParallelIterator};
use tfhe::boolean::ciphertext::Ciphertext;
use tfhe::boolean::client_key::ClientKey;
use tfhe::boolean::server_key::ServerKey;
use vstd::prelude::*;

verus! {

/// A gate that is applied to the bits of one or two bytes, place by place.
#[derive(Debug, PartialEq, Eq, Copy, Clone, Structural)]
pub enum BitGate {
    And,
    Or,
    Xor,
    /// NOT of the left input; the right input is not read.
    Not,
}

impl BitGate {
    /// This gate's value on plaintext inputs.
    pub open spec fn value(self, x: bool, y: bool) -> bool {
        match self {
            BitGate::And => x && y,
            BitGate::Or => x || y,
            BitGate::Xor => x != y,
            BitGate::Not => !x,
        }
    }

    /// `out` is a result of this gate on `x` and `y`.
    pub open spec fn yields(self, sk: ServerKey, x: Ciphertext, y: Ciphertext, out: Ciphertext) -> bool {
        usable(sk, out) && forall|ck: ClientKey| #[trigger]
            key_pair(ck, sk) ==> plain_bit(ck, out) == self.value(plain_bit(ck, x), plain_bit(ck, y))
    }

    /// Applies this gate to two ciphertexts.
    pub fn apply(self, server_key: &ServerKey, x: &Ciphertext, y: &Ciphertext) -> (out: Ciphertext)
        requires
            usable(*server_key, *x),
            usable(*server_key, *y),
        ensures
            self.yields(*server_key, *x, *y, out),
    {
        match self {
            BitGate::And => gate_and(server_key, x, y),
            BitGate::Or => gate_or(server_key, x, y),
            BitGate::Xor => gate_xor(server_key, x, y),
            BitGate::Not => gate_not(server_key, x),
        }
    }
}

/// `out` is a result of adding `y` to `x` where `condition` holds.
pub open spec fn cond_xor_yields(
    sk: ServerKey,
    condition: Ciphertext,
    x: Ciphertext,
    y: Ciphertext,
    out: Ciphertext,
) -> bool {
    usable(sk, out) && forall|ck: ClientKey| #[trigger]
        key_pair(ck, sk) ==> plain_bit(ck, out) == (if plain_bit(ck, condition) {
            plain_bit(ck, x) != plain_bit(ck, y)
        } else {
            plain_bit(ck, x)
        })
}

/// `x XOR y` where `condition` holds and `x` where it does not, without a
/// branch on the condition: a MUX between the two.
pub fn cond_xor(server_key: &ServerKey, condition: &Ciphertext, x: &Ciphertext, y: &Ciphertext) -> (out:
    Ciphertext)
    requires
        usable(*server_key, *condition),
        usable(*server_key, *x),
        usable(*server_key, *y),
    ensures
        cond_xor_yields(*server_key, *condition, *x, *y, out),
{
    let sum = gate_xor(server_key, x, y);
    gate_mux(server_key, condition, &sum, x)
}

/// Applies one gate to the places of two rows of ciphertexts on rayon's worker
/// pool: `par_iter().zip(..).map(..).collect()`, with `BitGate::apply` as the
/// mapped function. rayon pairs the items by position, applies the function to
/// every pair and collects the results in the order of the pairs.
#[verifier::external_body]
fn zip_gate(gate: BitGate, left: &Vec<Ciphertext>, right: &Vec<Ciphertext>, server_key: &ServerKey) -> (out: Vec<
    Ciphertext,
>)
    requires
        left.len() == right.len(),
        all_usable(*server_key, left@),
        all_usable(*server_key, right@),
    ensures
        out.len() == left.len(),
        forall|i: int| 0 <= i < out.len() ==> gate.yields(*server_key, left[i], right[i], #[trigger] out[i]),
{
    left.par_iter().zip(right.par_iter()).map(|(x, y)| gate.apply(server_key, x, y)).collect()
}

/// Adds `right` to `left` place by place where `condition` holds, on rayon's
/// worker pool: `par_iter().zip(..).map(..).collect()`, with `cond_xor` as the
/// mapped function. rayon pairs the items by position, applies the function to
/// every pair and collects the results in the order of the pairs.
#[verifier::external_body]
fn zip_cond_xor(condition: &Ciphertext, left: &Vec<Ciphertext>, right: &Vec<Ciphertext>, server_key: &ServerKey) -> (out:
    Vec<Ciphertext>)
    requires
        left.len() == right.len(),
        usable(*server_key, *condition),
        all_usable(*server_key, left@),
        all_usable(*server_key, right@),
    ensures
        out.len() == left.len(),
        forall|i: int|
            0 <= i < out.len() ==> cond_xor_yields(*server_key, *condition, left[i], right[i], #[trigger] out[i]),
{
    left.par_iter().zip(right.par_iter()).map(|(x, y)| cond_xor(server_key, condition, x, y)).collect()
}

/// An encrypted byte.
pub struct FHEByte {
    data: Vec<Ciphertext>,
}

impl FHEByte {
    /// The eight ciphertexts, most significant bit first.
    pub closed spec fn bits(&self) -> Seq<Ciphertext> {
        self.data@
    }

    /// The byte has eight bits, and the gates of `sk` accept each of them.
    pub open spec fn valid(&self, sk: ServerKey) -> bool {
        self.bits().len() == 8 && all_usable(sk, self.bits())
    }

    /// The byte that `ck` decrypts the eight bits to.
    pub open spec fn value(&self, ck: ClientKey) -> u8 {
        pack_seq(plain_bits(ck, self.bits()))
    }

    /// Some server key of `ck` accepts the byte, so `ck` can decrypt it.
    pub open spec fn opens_with(&self, ck: ClientKey) -> bool {
        exists|sk: ServerKey| #[trigger] key_pair(ck, sk) && self.valid(sk)
    }
}


impl BitGate {
    /// This gate's value on bytes: the operator applied to all eight places.
    pub open spec fn byte_value(self, x: u8, y: u8) -> u8 {
        match self {
            BitGate::And => x & y,
            BitGate::Or => x | y,
            BitGate::Xor => x ^ y,
            BitGate::Not => !x,
        }
    }
}

/// A gate applied place by place to the bits of two bytes gives the bits of
/// the operator's result on the bytes.
#[verifier::rlimit(50)]
pub proof fn lemma_gate_bytes(gate: BitGate, x: Seq<bool>, y: Seq<bool>, out: Seq<bool>)
    requires
        x.len() == 8,
        y.len() == 8,
        out.len() == 8,
        forall|i: int| 0 <= i < 8 ==> out[i] == gate.value(x[i], y[i]),
    ensures
        pack_seq(out) == gate.byte_value(pack_seq(x), pack_seq(y)),
{
    let a = pack_seq(x);
    let b = pack_seq(y);
    lemma_value_bits(x);
    lemma_value_bits(y);
    lemma_byte_ops(a, b);
    match gate {
        BitGate::And => {
            assert forall|i: int| 0 <= i < 8 implies bit_at(a & b, i) == out[i] by {
                assert(out[i] == (x[i] && y[i]));
            }
            lemma_pack_unique(a & b, out);
        },
        BitGate::Or => {
            assert forall|i: int| 0 <= i < 8 implies bit_at(a | b, i) == out[i] by {
                assert(out[i] == (x[i] || y[i]));
            }
            lemma_pack_unique(a | b, out);
        },
        BitGate::Xor => {
            assert forall|i: int| 0 <= i < 8 implies bit_at(a ^ b, i) == out[i] by {
                assert(out[i] == (x[i] != y[i]));
            }
            lemma_pack_unique(a ^ b, out);
        },
        BitGate::Not => {
            assert forall|i: int| 0 <= i < 8 implies bit_at(!a, i) == out[i] by {
                assert(out[i] == !x[i]);
            }
            lemma_pack_unique(!a, out);
        },
    }
}

/// The byte of eight plaintext bits, most significant first.
pub fn byte_from_bits(bits: &Vec<bool>) -> (r: u8)
    requires
        bits.len() == 8,
    ensures
        r == pack_seq(bits@),
{
    let b0: u8 = if bits[0] { 128 } else { 0 };
    let b1: u8 = if bits[1] { 64 } else { 0 };
    let b2: u8 = if bits[2] { 32 } else { 0 };
    let b3: u8 = if bits[3] { 16 } else { 0 };
    let b4: u8 = if bits[4] { 8 } else { 0 };
    let b5: u8 = if bits[5] { 4 } else { 0 };
    let b6: u8 = if bits[6] { 2 } else { 0 };
    let b7: u8 = if bits[7] { 1 } else { 0 };
    proof {
        reveal(pack);
    }
    b0 + b1 + b2 + b3 + b4 + b5 + b6 + b7
}

impl Clone for FHEByte {
    fn clone(&self) -> (r: Self)
        ensures
            r.bits() == self.bits(),
    {
        let mut data: Vec<Ciphertext> = Vec::with_capacity(self.data.len());
        let mut i: usize = 0;
        while i < self.data.len()
            invariant
                i <= self.data.len(),
                data.len() == i,
                forall|j: int| 0 <= j < i ==> data[j] == self.data[j],
            decreases self.data.len() - i,
        {
            data.push(copy_bit(&self.data[i]));
            i += 1;
        }
        assert(data@ =~= self.data@);
        FHEByte { data }
    }
}

impl FHEByte {
    /// Encrypts eight bits, most significant first, under the client key.
    pub fn new(bool_data: &[bool], client_key: &ClientKey) -> (r: Self)
        requires
            bool_data.len() == 8,
        ensures
            r.bits().len() == 8,
            plain_bits(*client_key, r.bits()) == bool_data@,
            r.value(*client_key) == pack_seq(bool_data@),
            forall|sk: ServerKey| #[trigger] key_pair(*client_key, sk) ==> r.valid(sk),
    {
        let mut data: Vec<Ciphertext> = Vec::with_capacity(8);
        let mut i: usize = 0;
        while i < 8
            invariant
                i <= 8,
                bool_data.len() == 8,
                data.len() == i,
                forall|j: int| 0 <= j < i ==> plain_bit(*client_key, #[trigger] data[j]) == bool_data[j],
                forall|j: int, sk: ServerKey|
                    0 <= j < i && #[trigger] key_pair(*client_key, sk) ==> usable(sk, #[trigger] data[j]),
            decreases 8 - i,
        {
            data.push(encrypt_bit(client_key, bool_data[i]));
            i += 1;
        }
        assert(plain_bits(*client_key, data@) =~= bool_data@);
        FHEByte { data }
    }

    /// Encrypts each bit of `value` under the client key.
    pub fn from_u8_enc(value: &u8, client_key: &ClientKey) -> (r: Self)
        ensures
            r.bits().len() == 8,
            r.value(*client_key) == *value,
            forall|sk: ServerKey| #[trigger] key_pair(*client_key, sk) ==> r.valid(sk),
    {
        let mut bools: Vec<bool> = Vec::with_capacity(8);
        let mut i: usize = 0;
        while i < 8
            invariant
                i <= 8,
                bools.len() == i,
                forall|j: int| 0 <= j < i ==> bools[j] == bit_at(*value, j),
            decreases 8 - i,
        {
            bools.push(bit_of_u8(*value, i));
            i += 1;
        }
        proof {
            lemma_pack_bits(*value);
            assert(bools@ =~= bits_of(*value));
        }
        Self::new(bools.as_slice(), client_key)
    }

    /// Encrypts each bit of `value` trivially: no key is needed to read it.
    pub fn from_u8_clear(value: &u8, server_key: &ServerKey) -> (r: Self)
        ensures
            r.valid(*server_key),
            forall|ck: ClientKey| #[trigger] r.value(ck) == *value,
    {
        Self::trivial_clear(*value, server_key)
    }

    /// The trivial encryption of `clear_value`.
    pub fn trivial_clear(clear_value: u8, server_key: &ServerKey) -> (r: Self)
        ensures
            r.valid(*server_key),
            forall|ck: ClientKey| #[trigger] r.value(ck) == clear_value,
            forall|ck: ClientKey| #[trigger] plain_bits(ck, r.bits()) == bits_of(clear_value),
    {
        let mut data: Vec<Ciphertext> = Vec::with_capacity(8);
        let mut i: usize = 0;
        while i < 8
            invariant
                i <= 8,
                data.len() == i,
                all_usable(*server_key, data@),
                forall|j: int, ck: ClientKey|
                    0 <= j < i ==> #[trigger] plain_bit(ck, data[j]) == bit_at(clear_value, j),
            decreases 8 - i,
        {
            data.push(trivial_bit(server_key, bit_of_u8(clear_value, i)));
            i += 1;
        }
        let r = FHEByte { data };
        proof {
            lemma_pack_bits(clear_value);
            assert forall|ck: ClientKey| #[trigger] plain_bits(ck, r.bits()) == bits_of(clear_value) by {
                assert(plain_bits(ck, r.bits()) =~= bits_of(clear_value));
            }
            assert forall|ck: ClientKey| #[trigger] r.value(ck) == clear_value by {
                assert(plain_bits(ck, r.bits()) == bits_of(clear_value));
            }
        }
        r
    }

    /// The trivial encryption of zero.
    pub fn trivial_false(server_key: &ServerKey) -> (r: Self)
        ensures
            r.valid(*server_key),
            forall|ck: ClientKey| #[trigger] r.value(ck) == 0,
    {
        Self::trivial_clear(0, server_key)
    }

    /// Decrypts the eight bits, most significant first.
    pub fn decrypt(&self, client_key: &ClientKey) -> (r: Vec<bool>)
        requires
            self.opens_with(*client_key),
        ensures
            r@ == plain_bits(*client_key, self.bits()),
    {
        let ghost sk = choose|sk: ServerKey| #[trigger] key_pair(*client_key, sk) && self.valid(sk);
        let mut out: Vec<bool> = Vec::with_capacity(8);
        let mut i: usize = 0;
        while i < self.data.len()
            invariant
                i <= self.data.len(),
                key_pair(*client_key, sk),
                self.valid(sk),
                out.len() == i,
                forall|j: int| 0 <= j < i ==> out[j] == plain_bit(*client_key, self.data[j]),
            decreases self.data.len() - i,
        {
            proof {
                assert(key_pair(*client_key, sk) && usable(sk, self.data[i as int]));
            }
            out.push(decrypt_bit(client_key, &self.data[i]));
            i += 1;
        }
        assert(out@ =~= plain_bits(*client_key, self.bits()));
        out
    }

    /// Decrypts the byte.
    pub fn decrypt_to_u8(&self, client_key: &ClientKey) -> (r: u8)
        requires
            self.opens_with(*client_key),
        ensures
            r == self.value(*client_key),
    {
        let bits = self.decrypt(client_key);
        byte_from_bits(&bits)
    }

    /// Applies one gate to every bit of the byte and the bit of `rhs` at the same place.
    fn combine(&mut self, gate: BitGate, rhs: &Self, server_key: &ServerKey)
        requires
            old(self).valid(*server_key),
            rhs.valid(*server_key),
        ensures
            final(self).valid(*server_key),
            forall|ck: ClientKey| #[trigger]
                key_pair(ck, *server_key) ==> final(self).value(ck) == gate.byte_value(
                    old(self).value(ck),
                    rhs.value(ck),
                ),
    {
        let out = zip_gate(gate, &self.data, &rhs.data, server_key);
        proof {
            assert forall|ck: ClientKey| #[trigger] key_pair(ck, *server_key) implies pack_seq(
                plain_bits(ck, out@),
            ) == gate.byte_value(self.value(ck), rhs.value(ck)) by {
                assert forall|i: int| 0 <= i < 8 implies plain_bits(ck, out@)[i] == gate.value(
                    plain_bits(ck, self.bits())[i],
                    plain_bits(ck, rhs.bits())[i],
                ) by {
                    assert(gate.yields(*server_key, self.data[i], rhs.data[i], out[i]));
                }
                lemma_gate_bytes(
                    gate,
                    plain_bits(ck, self.bits()),
                    plain_bits(ck, rhs.bits()),
                    plain_bits(ck, out@),
                );
            }
            assert forall|i: int| 0 <= i < out.len() implies usable(*server_key, #[trigger] out[i]) by {
                assert(gate.yields(*server_key, self.data[i], rhs.data[i], out[i]));
            }
        }
        self.data = out;
    }

    /// Bitwise XOR with `rhs`, in place: eight independent gates.
    pub fn xor_in_place(&mut self, rhs: &Self, server_key: &ServerKey)
        requires
            old(self).valid(*server_key),
            rhs.valid(*server_key),
        ensures
            final(self).valid(*server_key),
            forall|ck: ClientKey| #[trigger]
                key_pair(ck, *server_key) ==> final(self).value(ck) == old(self).value(ck) ^ rhs.value(ck),
    {
        self.combine(BitGate::Xor, rhs, server_key);
    }

    /// Bitwise XOR with `rhs`.
    pub fn xor(&self, rhs: &Self, server_key: &ServerKey) -> (r: Self)
        requires
            self.valid(*server_key),
            rhs.valid(*server_key),
        ensures
            r.valid(*server_key),
            forall|ck: ClientKey| #[trigger]
                key_pair(ck, *server_key) ==> r.value(ck) == self.value(ck) ^ rhs.value(ck),
    {
        let mut result = self.clone();
        result.xor_in_place(rhs, server_key);
        result
    }

    /// Bitwise AND with `rhs`, in place: eight independent gates.
    pub fn and_in_place(&mut self, rhs: &Self, server_key: &ServerKey)
        requires
            old(self).valid(*server_key),
            rhs.valid(*server_key),
        ensures
            final(self).valid(*server_key),
            forall|ck: ClientKey| #[trigger]
                key_pair(ck, *server_key) ==> final(self).value(ck) == old(self).value(ck) & rhs.value(ck),
    {
        self.combine(BitGate::And, rhs, server_key);
    }

    /// Bitwise AND with `rhs`.
    pub fn and(&self, rhs: &Self, server_key: &ServerKey) -> (r: Self)
        requires
            self.valid(*server_key),
            rhs.valid(*server_key),
        ensures
            r.valid(*server_key),
            forall|ck: ClientKey| #[trigger]
                key_pair(ck, *server_key) ==> r.value(ck) == self.value(ck) & rhs.value(ck),
    {
        let mut result = self.clone();
        result.and_in_place(rhs, server_key);
        result
    }

    /// Bitwise OR with `rhs`, in place: eight independent gates.
    pub fn or_in_place(&mut self, rhs: &Self, server_key: &ServerKey)
        requires
            old(self).valid(*server_key),
            rhs.valid(*server_key),
        ensures
            final(self).valid(*server_key),
            forall|ck: ClientKey| #[trigger]
                key_pair(ck, *server_key) ==> final(self).value(ck) == old(self).value(ck) | rhs.value(ck),
    {
        self.combine(BitGate::Or, rhs, server_key);
    }

    /// Bitwise OR with `rhs`.
    pub fn or(&self, rhs: &Self, server_key: &ServerKey) -> (r: Self)
        requires
            self.valid(*server_key),
            rhs.valid(*server_key),
        ensures
            r.valid(*server_key),
            forall|ck: ClientKey| #[trigger]
                key_pair(ck, *server_key) ==> r.value(ck) == self.value(ck) | rhs.value(ck),
    {
        let mut result = self.clone();
        result.or_in_place(rhs, server_key);
        result
    }

    /// Bitwise NOT, in place.
    pub fn not_in_place(&mut self, server_key: &ServerKey)
        requires
            old(self).valid(*server_key),
        ensures
            final(self).valid(*server_key),
            forall|ck: ClientKey| #[trigger] key_pair(ck, *server_key) ==> final(self).value(ck) == !old(self).value(ck),
    {
        let same = self.clone();
        self.combine(BitGate::Not, &same, server_key);
    }

    /// Bitwise NOT.
    pub fn not(&self, server_key: &ServerKey) -> (r: Self)
        requires
            self.valid(*server_key),
        ensures
            r.valid(*server_key),
            forall|ck: ClientKey| #[trigger] key_pair(ck, *server_key) ==> r.value(ck) == !self.value(ck),
    {
        let mut result = self.clone();
        result.not_in_place(server_key);
        result
    }
}


impl FHEByte {
    /// Rotates the bits to the left by `shift` places. No gate is run.
    pub fn rotate_left_in_place(&mut self, shift: usize)
        requires
            old(self).bits().len() == 8,
            shift <= 8,
        ensures
            final(self).bits().len() == 8,
            forall|i: int| 0 <= i < 8 ==> final(self).bits()[i] == old(self).bits()[(i + shift) % 8],
            forall|ck: ClientKey| #[trigger] final(self).value(ck) == rotl(old(self).value(ck), shift as nat),
    {
        let mut out: Vec<Ciphertext> = Vec::with_capacity(8);
        let mut i: usize = 0;
        while i < 8
            invariant
                i <= 8,
                shift <= 8,
                self.data.len() == 8,
                out.len() == i,
                forall|j: int| 0 <= j < i ==> out[j] == self.data[(j + shift) % 8],
            decreases 8 - i,
        {
            out.push(copy_bit(&self.data[(i + shift) % 8]));
            i += 1;
        }
        proof {
            assert forall|ck: ClientKey| #[trigger] pack_seq(plain_bits(ck, out@)) == rotl(self.value(ck), shift as nat) by {
                let v = self.value(ck);
                lemma_value_bits(plain_bits(ck, self.bits()));
                lemma_rotl_bits(v, shift as nat);
                lemma_pack_unique(rotl(v, shift as nat), plain_bits(ck, out@));
            }
        }
        self.data = out;
    }

    /// Rotates the bits to the right by `shift` places. No gate is run.
    pub fn rotate_right_in_place(&mut self, shift: usize)
        requires
            old(self).bits().len() == 8,
            shift <= 8,
        ensures
            final(self).bits().len() == 8,
            forall|i: int| 0 <= i < 8 ==> final(self).bits()[i] == old(self).bits()[(i + 8 - shift % 8) % 8],
            forall|ck: ClientKey| #[trigger] final(self).value(ck) == rotr(old(self).value(ck), shift as nat),
    {
        let mut out: Vec<Ciphertext> = Vec::with_capacity(8);
        let mut i: usize = 0;
        while i < 8
            invariant
                i <= 8,
                shift <= 8,
                self.data.len() == 8,
                out.len() == i,
                forall|j: int| 0 <= j < i ==> out[j] == self.data[(j + 8 - shift % 8) % 8],
            decreases 8 - i,
        {
            out.push(copy_bit(&self.data[(i + 8 - shift % 8) % 8]));
            i += 1;
        }
        proof {
            assert forall|ck: ClientKey| #[trigger] pack_seq(plain_bits(ck, out@)) == rotr(self.value(ck), shift as nat) by {
                let v = self.value(ck);
                lemma_value_bits(plain_bits(ck, self.bits()));
                lemma_rotr_bits(v, shift as nat);
                lemma_pack_unique(rotr(v, shift as nat), plain_bits(ck, out@));
            }
        }
        self.data = out;
    }

    /// The byte rotated to the left by `shift` places.
    pub fn rotate_left(&self, shift: usize) -> (r: Self)
        requires
            self.bits().len() == 8,
            shift <= 8,
        ensures
            r.bits().len() == 8,
            forall|i: int| 0 <= i < 8 ==> r.bits()[i] == self.bits()[(i + shift) % 8],
            forall|ck: ClientKey| #[trigger] r.value(ck) == rotl(self.value(ck), shift as nat),
    {
        let mut result = self.clone();
        result.rotate_left_in_place(shift);
        result
    }

    /// The byte rotated to the right by `shift` places.
    pub fn rotate_right(&self, shift: usize) -> (r: Self)
        requires
            self.bits().len() == 8,
            shift <= 8,
        ensures
            r.bits().len() == 8,
            forall|i: int| 0 <= i < 8 ==> r.bits()[i] == self.bits()[(i + 8 - shift % 8) % 8],
            forall|ck: ClientKey| #[trigger] r.value(ck) == rotr(self.value(ck), shift as nat),
    {
        let mut result = self.clone();
        result.rotate_right_in_place(shift);
        result
    }

    /// Shifts the bits to the right by `shift` places, at most 8; trivial
    /// encryptions of `false` come in at the left.
    pub fn shift_right_in_place(&mut self, shift: usize, server_key: &ServerKey)
        requires
            old(self).valid(*server_key),
        ensures
            final(self).valid(*server_key),
            forall|i: int| shift <= i < 8 ==> final(self).bits()[i] == old(self).bits()[i - shift],
            forall|ck: ClientKey| #[trigger] final(self).value(ck) == shr(old(self).value(ck), shift as nat),
    {
        let shift: usize = if shift > 8 { 8 } else { shift };
        let mut out: Vec<Ciphertext> = Vec::with_capacity(8);
        let mut i: usize = 0;
        while i < 8
            invariant
                i <= 8,
                shift <= 8,
                self.valid(*server_key),
                out.len() == i,
                all_usable(*server_key, out@),
                forall|j: int| shift <= j < i ==> out[j] == self.data[j - shift],
                forall|j: int, ck: ClientKey| 0 <= j < i && j < shift ==> #[trigger] plain_bit(ck, out[j]) == false,
            decreases 8 - i,
        {
            if i < shift {
                out.push(trivial_bit(server_key, false));
            } else {
                out.push(copy_bit(&self.data[i - shift]));
            }
            i += 1;
        }
        proof {
            assert forall|ck: ClientKey| #[trigger] pack_seq(plain_bits(ck, out@)) == shr(self.value(ck), shift as nat) by {
                let v = self.value(ck);
                lemma_value_bits(plain_bits(ck, self.bits()));
                lemma_shr_bits(v, shift as nat);
                lemma_pack_unique(shr(v, shift as nat), plain_bits(ck, out@));
            }
        }
        self.data = out;
    }

    /// Shifts the bits to the left by `shift` places, at most 8; trivial
    /// encryptions of `false` come in at the right.
    pub fn shift_left_in_place(&mut self, shift: usize, server_key: &ServerKey)
        requires
            old(self).valid(*server_key),
        ensures
            final(self).valid(*server_key),
            forall|i: int| 0 <= i && i + shift < 8 ==> final(self).bits()[i] == old(self).bits()[i + shift],
            forall|i: int, ck: ClientKey|
                0 <= i < 8 && i + shift >= 8 ==> #[trigger] plain_bit(ck, final(self).bits()[i]) == false,
            forall|ck: ClientKey| #[trigger] final(self).value(ck) == shl(old(self).value(ck), shift as nat),
    {
        let shift: usize = if shift > 8 { 8 } else { shift };
        let mut out: Vec<Ciphertext> = Vec::with_capacity(8);
        let mut i: usize = 0;
        while i < 8
            invariant
                i <= 8,
                shift <= 8,
                self.valid(*server_key),
                out.len() == i,
                all_usable(*server_key, out@),
                forall|j: int| 0 <= j < i && j + shift < 8 ==> out[j] == self.data[j + shift],
                forall|j: int, ck: ClientKey|
                    0 <= j < i && j + shift >= 8 ==> #[trigger] plain_bit(ck, out[j]) == false,
            decreases 8 - i,
        {
            if i + shift < 8 {
                out.push(copy_bit(&self.data[i + shift]));
            } else {
                out.push(trivial_bit(server_key, false));
            }
            i += 1;
        }
        proof {
            assert forall|ck: ClientKey| #[trigger] pack_seq(plain_bits(ck, out@)) == shl(self.value(ck), shift as nat) by {
                let v = self.value(ck);
                lemma_value_bits(plain_bits(ck, self.bits()));
                lemma_shl_bits(v, shift as nat);
                lemma_pack_unique(shl(v, shift as nat), plain_bits(ck, out@));
            }
        }
        self.data = out;
    }

    /// The byte shifted to the left by `shift` places.
    pub fn shift_left(&self, shift: usize, server_key: &ServerKey) -> (r: Self)
        requires
            self.valid(*server_key),
        ensures
            r.valid(*server_key),
            forall|ck: ClientKey| #[trigger] r.value(ck) == shl(self.value(ck), shift as nat),
    {
        let mut result = self.clone();
        result.shift_left_in_place(shift, server_key);
        result
    }

    /// The byte shifted to the right by `shift` places.
    pub fn shift_right(&self, shift: usize, server_key: &ServerKey) -> (r: Self)
        requires
            self.valid(*server_key),
        ensures
            r.valid(*server_key),
            forall|ck: ClientKey| #[trigger] r.value(ck) == shr(self.value(ck), shift as nat),
    {
        let mut result = self.clone();
        result.shift_right_in_place(shift, server_key);
        result
    }

    /// Multiplies the byte by `x` in GF(2^8), in place: a shift to the left,
    /// then 0x1b added at every place where the former most significant bit
    /// holds, through a MUX and without a branch on it.
    #[verifier::rlimit(50)]
    pub fn mul_x_gf2_in_place(&mut self, server_key: &ServerKey)
        requires
            old(self).valid(*server_key),
        ensures
            final(self).valid(*server_key),
            forall|ck: ClientKey| #[trigger]
                key_pair(ck, *server_key) ==> final(self).value(ck) == xtime(old(self).value(ck)),
    {
        let conditional_bit = copy_bit(&self.data[0]);
        let ghost before = self.data@;
        self.shift_left_in_place(1, server_key);
        let irr_poly = FHEByte::trivial_clear(0x1b, server_key);
        let out = zip_cond_xor(&conditional_bit, &self.data, &irr_poly.data, server_key);
        proof {
            assert forall|ck: ClientKey| #[trigger] key_pair(ck, *server_key) implies pack_seq(
                plain_bits(ck, out@),
            ) == xtime(old(self).value(ck)) by {
                let v = old(self).value(ck);
                lemma_value_bits(plain_bits(ck, before));
                lemma_byte_xtime(v);
                assert(plain_bits(ck, irr_poly.bits()) == bits_of(0x1b));
                assert forall|i: int| 0 <= i < 8 implies bit_at(xtime(v), i) == plain_bits(ck, out@)[i] by {
                    assert(cond_xor_yields(*server_key, conditional_bit, self.data[i], irr_poly.data[i], out[i]));
                    assert(plain_bits(ck, irr_poly.bits())[i] == bit_at(0x1b, i));
                    if i < 7 {
                        assert(self.data[i] == before[i + 1]);
                    } else {
                        assert(plain_bit(ck, self.data[i]) == false);
                    }
                }
                lemma_pack_unique(xtime(v), plain_bits(ck, out@));
            }
            assert forall|i: int| 0 <= i < out.len() implies usable(*server_key, #[trigger] out[i]) by {
                assert(cond_xor_yields(*server_key, conditional_bit, self.data[i], irr_poly.data[i], out[i]));
            }
        }
        self.data = out;
    }

    /// The byte multiplied by `x` in GF(2^8).
    pub fn mul_x_gf2(&self, server_key: &ServerKey) -> (r: Self)
        requires
            self.valid(*server_key),
        ensures
            r.valid(*server_key),
            forall|ck: ClientKey| #[trigger] key_pair(ck, *server_key) ==> r.value(ck) == xtime(self.value(ck)),
    {
        let mut result = self.clone();
        result.mul_x_gf2_in_place(server_key);
        result
    }

    /// Substitutes the byte through a compiled box: the eight bits are the
    /// inputs of the box's expressions, bit 0 the most significant, and the
    /// eight results are the bits of the substitute.
    #[verifier::rlimit(50)]
    fn substitute(&self, plan: &StagedEvaluator, server_key: &ServerKey, Ghost(table): Ghost<Seq<u8>>) -> (r: Self)
        requires
            self.valid(*server_key),
            plan.wf(),
            represents(plan.root_seq(), table),
        ensures
            r.valid(*server_key),
            forall|ck: ClientKey| #[trigger]
                key_pair(ck, *server_key) ==> r.value(ck) == table[self.value(ck) as int],
    {
        let out = plan.evaluate(self.data.as_slice(), server_key);
        proof {
            assert forall|ck: ClientKey| #[trigger] key_pair(ck, *server_key) implies pack_seq(
                plain_bits(ck, out@),
            ) == table[self.value(ck) as int] by {
                let v = self.value(ck);
                lemma_value_bits(plain_bits(ck, self.bits()));
                assert forall|i: int| 0 <= i < 8 implies bit_at(table[v as int], i) == plain_bits(ck, out@)[i] by {
                    assert(computes(*server_key, out[i], plan.root_seq()[i], self.data@));
                    assert(plan.root_seq()[i].eval(bits_of(v)) == bit_at(table[v as int], i));
                }
                lemma_pack_unique(table[v as int], plain_bits(ck, out@));
            }
            assert forall|i: int| 0 <= i < out.len() implies usable(*server_key, #[trigger] out[i]) by {
                assert(computes(*server_key, out[i], plan.root_seq()[i], self.data@));
            }
        }
        FHEByte { data: out }
    }

    /// The S-box applied to the byte, through compiled tables.
    pub fn sub_byte_with(&self, tables: &SBoxTables, server_key: &ServerKey) -> (r: Self)
        requires
            self.valid(*server_key),
            tables.wf(),
        ensures
            r.valid(*server_key),
            forall|ck: ClientKey| #[trigger] key_pair(ck, *server_key) ==> r.value(ck) == sbox(self.value(ck)),
    {
        self.substitute(tables.forward(), server_key, Ghost(S_BOX_DATA@))
    }

    /// The inverse S-box applied to the byte, through compiled tables.
    pub fn inv_sub_byte_with(&self, tables: &SBoxTables, server_key: &ServerKey) -> (r: Self)
        requires
            self.valid(*server_key),
            tables.wf(),
        ensures
            r.valid(*server_key),
            forall|ck: ClientKey| #[trigger] key_pair(ck, *server_key) ==> r.value(ck) == inv_sbox(self.value(ck)),
    {
        self.substitute(tables.inverse(), server_key, Ghost(INV_S_BOX_DATA@))
    }

    /// The S-box applied to the byte. The box is compiled for this one call;
    /// `sub_byte_with` shares compiled tables between calls.
    pub fn sub_byte(&self, server_key: &ServerKey) -> (r: Self)
        requires
            self.valid(*server_key),
        ensures
            r.valid(*server_key),
            forall|ck: ClientKey| #[trigger] key_pair(ck, *server_key) ==> r.value(ck) == sbox(self.value(ck)),
    {
        let plan = StagedEvaluator::new(generate_reduced_bool_expr(&S_BOX_DATA));
        self.substitute(&plan, server_key, Ghost(S_BOX_DATA@))
    }

    /// The inverse S-box applied to the byte. The box is compiled for this
    /// one call; `inv_sub_byte_with` shares compiled tables between calls.
    pub fn inv_sub_byte(&self, server_key: &ServerKey) -> (r: Self)
        requires
            self.valid(*server_key),
        ensures
            r.valid(*server_key),
            forall|ck: ClientKey| #[trigger] key_pair(ck, *server_key) ==> r.value(ck) == inv_sbox(self.value(ck)),
    {
        let plan = StagedEvaluator::new(generate_reduced_bool_expr(&INV_S_BOX_DATA));
        self.substitute(&plan, server_key, Ghost(INV_S_BOX_DATA@))
    }
}

} // verus!
