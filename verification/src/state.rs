//! The AES state in encrypted form: sixteen encrypted bytes, stored row after
//! row, so that the byte of row `r` and column `c` stands at index `4 * r + c`.

use crate::aes;
use crate::bytes::xtime;
use crate::gates::key_pair;
use crate::key_schedule::Key;
use crate::primitive::FHEByte;
use crate::sbox::{inv_sbox, sbox, SBoxTables};
use rayon::iter::{IndexedParallelIterator, IntoParallelRefIterator, ParallelIterator};
use tfhe::boolean::client_key::ClientKey;
use tfhe::boolean::server_key::ServerKey;
use vstd::prelude::*;

verus! {

/// The gates of `sk` accept every byte of the row.
pub open spec fn all_valid(sk: ServerKey, bytes: Seq<FHEByte>) -> bool {
    forall|i: int| 0 <= i < bytes.len() ==> (#[trigger] bytes[i]).valid(sk)
}

/// The bytes that `ck` decrypts a row of encrypted bytes to.
pub open spec fn values(ck: ClientKey, bytes: Seq<FHEByte>) -> Seq<u8> {
    Seq::new(bytes.len(), |i: int| bytes[i].value(ck))
}

/// XOR of two rows of encrypted bytes, pair by pair, on rayon's worker pool:
/// `par_iter().zip(..).map(..).collect()`, with `FHEByte::xor` as the mapped
/// function. rayon pairs the items by position, applies the function to every
/// pair and collects the results in the order of the pairs.
#[verifier::external_body]
pub(crate) fn xor_all(left: &[FHEByte], right: &[FHEByte], server_key: &ServerKey) -> (out: Vec<FHEByte>)
    requires
        left@.len() == right@.len(),
        all_valid(*server_key, left@),
        all_valid(*server_key, right@),
    ensures
        out.len() == left@.len(),
        all_valid(*server_key, out@),
        forall|ck: ClientKey, i: int|
            #![trigger key_pair(ck, *server_key), out[i]]
            key_pair(ck, *server_key) && 0 <= i < out.len() ==> out[i].value(ck) == left[i].value(ck) ^ right[i].value(
                ck,
            ),
{
    left.par_iter().zip(right.par_iter()).map(|(x, y)| x.xor(y, server_key)).collect()
}

/// Multiplication by `x` of every byte of a row, on rayon's worker pool:
/// `par_iter().map(..).collect()`, with `FHEByte::mul_x_gf2` as the mapped
/// function. rayon applies the function to every item and collects the
/// results in the order of the items.
#[verifier::external_body]
pub(crate) fn mul_x_all(bytes: &[FHEByte], server_key: &ServerKey) -> (out: Vec<FHEByte>)
    requires
        all_valid(*server_key, bytes@),
    ensures
        out.len() == bytes@.len(),
        all_valid(*server_key, out@),
        forall|ck: ClientKey, i: int|
            #![trigger key_pair(ck, *server_key), out[i]]
            key_pair(ck, *server_key) && 0 <= i < out.len() ==> out[i].value(ck) == xtime(bytes[i].value(ck)),
{
    bytes.par_iter().map(|x| x.mul_x_gf2(server_key)).collect()
}

/// The S-box applied to every byte of a row, on rayon's worker pool:
/// `par_iter().map(..).collect()`, with `FHEByte::sub_byte_with` as the mapped
/// function. rayon applies the function to every item and collects the
/// results in the order of the items.
#[verifier::external_body]
pub(crate) fn sub_all(bytes: &[FHEByte], tables: &SBoxTables, server_key: &ServerKey) -> (out: Vec<FHEByte>)
    requires
        tables.wf(),
        all_valid(*server_key, bytes@),
    ensures
        out.len() == bytes@.len(),
        all_valid(*server_key, out@),
        forall|ck: ClientKey, i: int|
            #![trigger key_pair(ck, *server_key), out[i]]
            key_pair(ck, *server_key) && 0 <= i < out.len() ==> out[i].value(ck) == sbox(bytes[i].value(ck)),
{
    bytes.par_iter().map(|x| x.sub_byte_with(tables, server_key)).collect()
}

/// The inverse S-box applied to every byte of a row, on rayon's worker pool:
/// `par_iter().map(..).collect()`, with `FHEByte::inv_sub_byte_with` as the
/// mapped function. rayon applies the function to every item and collects the
/// results in the order of the items.
#[verifier::external_body]
pub(crate) fn inv_sub_all(bytes: &[FHEByte], tables: &SBoxTables, server_key: &ServerKey) -> (out: Vec<FHEByte>)
    requires
        tables.wf(),
        all_valid(*server_key, bytes@),
    ensures
        out.len() == bytes@.len(),
        all_valid(*server_key, out@),
        forall|ck: ClientKey, i: int|
            #![trigger key_pair(ck, *server_key), out[i]]
            key_pair(ck, *server_key) && 0 <= i < out.len() ==> out[i].value(ck) == inv_sbox(bytes[i].value(ck)),
{
    bytes.par_iter().map(|x| x.inv_sub_byte_with(tables, server_key)).collect()
}

/// `TryFrom<Vec<T>>` for an array, of std: the array of the elements of a
/// vector of the array's length, in their order.
#[verifier::external_body]
pub(crate) fn to_array<T, const N: usize>(items: Vec<T>) -> (r: [T; N])
    requires
        items.len() == N,
    ensures
        r@ == items@,
{
    items.try_into().ok().unwrap()
}

/// The bytes of `data` at the places that `order` names, in that order.
pub(crate) fn gather(data: &[FHEByte], order: &Vec<usize>) -> (out: Vec<FHEByte>)
    requires
        forall|i: int| 0 <= i < order.len() ==> (#[trigger] order[i]) < data@.len(),
    ensures
        out.len() == order.len(),
        forall|i: int| 0 <= i < out.len() ==> (#[trigger] out[i]).bits() == data[order[i] as int].bits(),
{
    let mut out: Vec<FHEByte> = Vec::with_capacity(order.len());
    let mut i: usize = 0;
    while i < order.len()
        invariant
            i <= order.len(),
            out.len() == i,
            forall|j: int| 0 <= j < order.len() ==> (#[trigger] order[j]) < data@.len(),
            forall|j: int| 0 <= j < i ==> (#[trigger] out[j]).bits() == data[order[j] as int].bits(),
        decreases order.len() - i,
    {
        out.push(data[order[i]].clone());
        i += 1;
    }
    out
}

/// The sixteen places in the order that the transposition reads them.
pub(crate) fn transposition() -> (order: Vec<usize>)
    ensures
        order.len() == 16,
        forall|i: int| 0 <= i < 16 ==> (#[trigger] order[i]) == 4 * (i % 4) + i / 4,
{
    vec![0, 4, 8, 12, 1, 5, 9, 13, 2, 6, 10, 14, 3, 7, 11, 15]
}

/// The bytes of a number of 128 bits, most significant byte first.
pub(crate) fn be_bytes(value: u128) -> (bytes: [u8; 16])
    ensures
        aes::be_value(bytes@) == value,
{
    let mut bytes: [u8; 16] = [0u8; 16];
    let mut rest: u128 = value;
    let mut k: usize = 16;
    assert(bytes@.subrange(16, 16) =~= Seq::<u8>::empty());
    assert(aes::be_value(bytes@.subrange(16, 16)) == 0);
    assert(aes::pow256(0) == 1);
    assert(rest * aes::pow256(0) == value) by (nonlinear_arith)
        requires
            rest == value,
            aes::pow256(0) == 1,
    ;
    while k > 0
        invariant
            k <= 16,
            aes::be_value(bytes@.subrange(k as int, 16)) + rest * aes::pow256((16 - k) as nat) == value,
        decreases k,
    {
        let ghost suffix = bytes@.subrange(k as int, 16);
        let ghost power = aes::pow256((16 - k) as nat);
        let digit: u8 = (rest % 256) as u8;
        k -= 1;
        bytes[k] = digit;
        proof {
            assert(bytes@.subrange(k as int, 16) =~= seq![digit] + suffix);
            aes::lemma_be_value_prepend(digit, suffix);
            assert(rest * power == (rest / 256) * (256 * power) + digit * power) by (nonlinear_arith)
                requires
                    digit == rest % 256,
            ;
        }
        rest = rest / 256;
    }
    proof {
        aes::lemma_pow256(16);
        assert(bytes@.subrange(0, 16) =~= bytes@);
        assert(rest == 0) by (nonlinear_arith)
            requires
                rest * aes::pow256(16) <= value,
                value < aes::pow256(16),
                rest >= 0,
        ;
    }
    bytes
}

/// The number that sixteen bytes spell, most significant byte first.
pub(crate) fn be_number(bytes: &[u8; 16]) -> (value: u128)
    ensures
        value == aes::be_value(bytes@),
{
    let mut value: u128 = 0;
    let mut k: usize = 0;
    assert(bytes@.subrange(0, 0) =~= Seq::<u8>::empty());
    assert(aes::pow256(0) == 1);
    while k < 16
        invariant
            k <= 16,
            value == aes::be_value(bytes@.subrange(0, k as int)),
            value < aes::pow256(k as nat),
        decreases 16 - k,
    {
        proof {
            aes::lemma_pow256((k + 1) as nat);
            assert(bytes@.subrange(0, k + 1).drop_last() =~= bytes@.subrange(0, k as int));
        }
        value = value * 256 + bytes[k] as u128;
        k += 1;
    }
    assert(bytes@.subrange(0, 16) =~= bytes@);
    value
}


/// An encrypted copy of every byte of `data`, in the order of `order`.
pub(crate) fn encrypt_bytes(data: &[u8; 16], order: &Vec<usize>, client_key: &ClientKey) -> (out: Vec<FHEByte>)
    requires
        order.len() == 16,
        forall|i: int| 0 <= i < 16 ==> (#[trigger] order[i]) < 16,
    ensures
        out.len() == 16,
        forall|i: int| 0 <= i < 16 ==> (#[trigger] out[i]).value(*client_key) == data[order[i] as int],
        forall|sk: ServerKey| #[trigger] key_pair(*client_key, sk) ==> all_valid(sk, out@),
{
    let mut out: Vec<FHEByte> = Vec::with_capacity(16);
    let mut i: usize = 0;
    while i < 16
        invariant
            i <= 16,
            order.len() == 16,
            out.len() == i,
            forall|j: int| 0 <= j < 16 ==> (#[trigger] order[j]) < 16,
            forall|j: int| 0 <= j < i ==> (#[trigger] out[j]).value(*client_key) == data[order[j] as int],
            forall|sk: ServerKey, j: int|
                #![trigger key_pair(*client_key, sk), out[j]]
                key_pair(*client_key, sk) && 0 <= j < i ==> out[j].valid(sk),
        decreases 16 - i,
    {
        out.push(FHEByte::from_u8_enc(&data[order[i]], client_key));
        i += 1;
    }
    out
}

/// A trivially encrypted copy of every byte of `data`, in the order of `order`.
pub(crate) fn trivial_bytes(data: &[u8; 16], order: &Vec<usize>, server_key: &ServerKey) -> (out: Vec<FHEByte>)
    requires
        order.len() == 16,
        forall|i: int| 0 <= i < 16 ==> (#[trigger] order[i]) < 16,
    ensures
        out.len() == 16,
        all_valid(*server_key, out@),
        forall|ck: ClientKey, i: int| 0 <= i < 16 ==> (#[trigger] out[i].value(ck)) == data[order[i] as int],
{
    let mut out: Vec<FHEByte> = Vec::with_capacity(16);
    let mut i: usize = 0;
    while i < 16
        invariant
            i <= 16,
            order.len() == 16,
            out.len() == i,
            all_valid(*server_key, out@),
            forall|j: int| 0 <= j < 16 ==> (#[trigger] order[j]) < 16,
            forall|ck: ClientKey, j: int| 0 <= j < i ==> (#[trigger] out[j].value(ck)) == data[order[j] as int],
        decreases 16 - i,
    {
        out.push(FHEByte::from_u8_clear(&data[order[i]], server_key));
        i += 1;
    }
    out
}

/// The bytes that `client_key` decrypts sixteen encrypted bytes to, in the
/// order of `order`.
pub(crate) fn decrypt_bytes(data: &[FHEByte], order: &Vec<usize>, client_key: &ClientKey) -> (out: [u8; 16])
    requires
        data@.len() == 16,
        order.len() == 16,
        forall|i: int| 0 <= i < 16 ==> (#[trigger] order[i]) < 16,
        exists|sk: ServerKey| #[trigger] key_pair(*client_key, sk) && all_valid(sk, data@),
    ensures
        forall|i: int| 0 <= i < 16 ==> (#[trigger] out[i]) == data[order[i] as int].value(*client_key),
{
    let ghost sk = choose|sk: ServerKey| #[trigger] key_pair(*client_key, sk) && all_valid(sk, data@);
    let mut out: [u8; 16] = [0u8; 16];
    let mut i: usize = 0;
    while i < 16
        invariant
            i <= 16,
            data@.len() == 16,
            order.len() == 16,
            key_pair(*client_key, sk),
            all_valid(sk, data@),
            forall|j: int| 0 <= j < 16 ==> (#[trigger] order[j]) < 16,
            forall|j: int| 0 <= j < i ==> (#[trigger] out[j]) == data[order[j] as int].value(*client_key),
        decreases 16 - i,
    {
        let byte = &data[order[i]];
        proof {
            assert(key_pair(*client_key, sk) && byte.valid(sk));
        }
        out[i] = byte.decrypt_to_u8(client_key);
        i += 1;
    }
    out
}

/// One AES block in encrypted form.
pub struct State {
    data: [FHEByte; 16],
}

impl Clone for State {
    fn clone(&self) -> (r: Self)
        ensures
            r.same_as(*self),
    {
        let mut data: Vec<FHEByte> = Vec::with_capacity(self.data.len());
        let mut i: usize = 0;
        while i < self.data.len()
            invariant
                i <= self.data.len(),
                data.len() == i,
                forall|j: int| 0 <= j < i ==> (#[trigger] data[j]).bits() == self.data[j].bits(),
            decreases self.data.len() - i,
        {
            data.push(self.data[i].clone());
            i += 1;
        }
        State { data: to_array(data) }
    }
}

impl State {
    /// The sixteen encrypted bytes, row after row.
    pub closed spec fn bytes(&self) -> Seq<FHEByte> {
        self.data@
    }

    /// The state has sixteen bytes, and the gates of `sk` accept them.
    pub open spec fn valid(&self, sk: ServerKey) -> bool {
        self.bytes().len() == 16 && all_valid(sk, self.bytes())
    }

    /// Some server key of `ck` accepts the state, so `ck` can decrypt it.
    pub open spec fn opens_with(&self, ck: ClientKey) -> bool {
        exists|sk: ServerKey| #[trigger] key_pair(ck, sk) && self.valid(sk)
    }

    /// The matrix that `ck` decrypts the state to, row after row.
    pub open spec fn cells(&self, ck: ClientKey) -> Seq<u8> {
        values(ck, self.bytes())
    }

    /// The block that `ck` decrypts the state to, in the order in which AES
    /// blocks are written: column after column.
    pub open spec fn block(&self, ck: ClientKey) -> Seq<u8> {
        aes::transpose(self.cells(ck))
    }

    /// Encrypts the block that `value` spells, most significant byte first.
    pub fn from_u128_enc(value: u128, client_key: &ClientKey) -> (r: Self)
        ensures
            r.bytes().len() == 16,
            aes::be_value(r.block(*client_key)) == value,
            forall|sk: ServerKey| #[trigger] key_pair(*client_key, sk) ==> r.valid(sk),
    {
        let bytes = be_bytes(value);
        let r = Self::from_u8_enc(&bytes, client_key);
        r
    }

    /// Encrypts a block of sixteen bytes.
    pub fn from_u8_enc(data: &[u8; 16], client_key: &ClientKey) -> (r: Self)
        ensures
            r.bytes().len() == 16,
            r.block(*client_key) == data@,
            forall|sk: ServerKey| #[trigger] key_pair(*client_key, sk) ==> r.valid(sk),
    {
        let order = transposition();
        let r = State { data: to_array(encrypt_bytes(data, &order, client_key)) };
        proof {
            assert(r.cells(*client_key) =~= aes::transpose(data@));
            aes::lemma_transpose_twice(data@);
        }
        r
    }

    /// The trivial encryption of the block that `value` spells, most
    /// significant byte first.
    pub fn from_u128_clear(value: u128, server_key: &ServerKey) -> (r: Self)
        ensures
            r.valid(*server_key),
            forall|ck: ClientKey| aes::be_value(#[trigger] r.block(ck)) == value,
    {
        let bytes = be_bytes(value);
        Self::from_u8_clear(&bytes, server_key)
    }

    /// The trivial encryption of a block of sixteen bytes.
    pub fn from_u8_clear(data: &[u8; 16], server_key: &ServerKey) -> (r: Self)
        ensures
            r.valid(*server_key),
            forall|ck: ClientKey| #[trigger] r.block(ck) == data@,
    {
        let order = transposition();
        let r = State { data: to_array(trivial_bytes(data, &order, server_key)) };
        proof {
            assert forall|ck: ClientKey| #[trigger] r.block(ck) == data@ by {
                assert(r.cells(ck) =~= aes::transpose(data@));
                aes::lemma_transpose_twice(data@);
            }
        }
        r
    }

    /// Decrypts the block.
    pub fn decrypt_to_u8(&self, client_key: &ClientKey) -> (r: [u8; 16])
        requires
            self.opens_with(*client_key),
        ensures
            r@ == self.block(*client_key),
    {
        let order = transposition();
        proof {
            let sk = choose|sk: ServerKey| #[trigger] key_pair(*client_key, sk) && self.valid(sk);
            assert(key_pair(*client_key, sk) && all_valid(sk, self.data@));
        }
        let r = decrypt_bytes(&self.data, &order, client_key);
        assert(r@ =~= self.block(*client_key));
        r
    }

    /// Decrypts the block to the number that it spells, most significant
    /// byte first.
    pub fn decrypt_to_u128(&self, client_key: &ClientKey) -> (r: u128)
        requires
            self.opens_with(*client_key),
        ensures
            r == aes::be_value(self.block(*client_key)),
    {
        let u8_data = self.decrypt_to_u8(client_key);
        be_number(&u8_data)
    }

    /// AddRoundKey with an encrypted round key.
    pub fn xor_key_enc(&mut self, key: &Key, server_key: &ServerKey)
        requires
            old(self).valid(*server_key),
            key.valid(*server_key),
        ensures
            final(self).valid(*server_key),
            forall|ck: ClientKey| #[trigger]
                key_pair(ck, *server_key) ==> final(self).cells(ck) == aes::add_round_key(
                    old(self).cells(ck),
                    key.cells(ck),
                ),
    {
        let out = xor_all(&self.data, &key.data, server_key);
        proof {
            assert forall|ck: ClientKey| #[trigger] key_pair(ck, *server_key) implies values(ck, out@)
                == aes::add_round_key(self.cells(ck), key.cells(ck)) by {
                assert forall|i: int| 0 <= i < 16 implies values(ck, out@)[i] == self.cells(ck)[i] ^ key.cells(
                    ck,
                )[i] by {
                    assert(out[i].value(ck) == self.data[i].value(ck) ^ key.data[i].value(ck));
                }
                reveal(aes::add_round_key);
                assert(values(ck, out@) =~= aes::add_round_key(self.cells(ck), key.cells(ck)));
            }
        }
        self.data = to_array(out);
    }

    /// AddRoundKey with a round key in the clear, given as a block.
    pub fn xor_key_clear(&mut self, key: &[u8; 16], server_key: &ServerKey)
        requires
            old(self).valid(*server_key),
        ensures
            final(self).valid(*server_key),
            forall|ck: ClientKey| #[trigger]
                key_pair(ck, *server_key) ==> final(self).cells(ck) == aes::add_round_key(
                    old(self).cells(ck),
                    aes::transpose(key@),
                ),
    {
        let order = transposition();
        let key_data = trivial_bytes(key, &order, server_key);
        let out = xor_all(&self.data, &key_data, server_key);
        proof {
            assert forall|ck: ClientKey| #[trigger] key_pair(ck, *server_key) implies values(ck, out@)
                == aes::add_round_key(self.cells(ck), aes::transpose(key@)) by {
                assert forall|i: int| 0 <= i < 16 implies values(ck, out@)[i] == self.cells(ck)[i]
                    ^ aes::transpose(key@)[i] by {
                    assert(out[i].value(ck) == self.data[i].value(ck) ^ key_data[i].value(ck));
                }
                reveal(aes::add_round_key);
                assert(values(ck, out@) =~= aes::add_round_key(self.cells(ck), aes::transpose(key@)));
            }
        }
        self.data = to_array(out);
    }

    /// XOR with another state, byte by byte.
    pub fn xor_state(&mut self, state: &State, server_key: &ServerKey)
        requires
            old(self).valid(*server_key),
            state.valid(*server_key),
        ensures
            final(self).valid(*server_key),
            forall|ck: ClientKey| #[trigger]
                key_pair(ck, *server_key) ==> final(self).cells(ck) == aes::add_round_key(
                    old(self).cells(ck),
                    state.cells(ck),
                ),
    {
        let out = xor_all(&self.data, &state.data, server_key);
        proof {
            assert forall|ck: ClientKey| #[trigger] key_pair(ck, *server_key) implies values(ck, out@)
                == aes::add_round_key(self.cells(ck), state.cells(ck)) by {
                assert forall|i: int| 0 <= i < 16 implies values(ck, out@)[i] == self.cells(ck)[i] ^ state.cells(
                    ck,
                )[i] by {
                    assert(out[i].value(ck) == self.data[i].value(ck) ^ state.data[i].value(ck));
                }
                reveal(aes::add_round_key);
                assert(values(ck, out@) =~= aes::add_round_key(self.cells(ck), state.cells(ck)));
            }
        }
        self.data = to_array(out);
    }

    /// SubBytes, through compiled tables: the sixteen bytes in parallel.
    pub fn sub_bytes_with(&mut self, tables: &SBoxTables, server_key: &ServerKey)
        requires
            old(self).valid(*server_key),
            tables.wf(),
        ensures
            final(self).valid(*server_key),
            forall|ck: ClientKey| #[trigger]
                key_pair(ck, *server_key) ==> final(self).cells(ck) == aes::sub_bytes(old(self).cells(ck)),
    {
        let out = sub_all(&self.data, tables, server_key);
        proof {
            assert forall|ck: ClientKey| #[trigger] key_pair(ck, *server_key) implies values(ck, out@)
                == aes::sub_bytes(self.cells(ck)) by {
                assert forall|i: int| 0 <= i < 16 implies values(ck, out@)[i] == sbox(self.cells(ck)[i]) by {
                    assert(out[i].value(ck) == sbox(self.data[i].value(ck)));
                }
                reveal(aes::sub_bytes);
                assert(values(ck, out@) =~= aes::sub_bytes(self.cells(ck)));
            }
        }
        self.data = to_array(out);
    }

    /// InvSubBytes, through compiled tables: the sixteen bytes in parallel.
    pub fn inv_sub_bytes_with(&mut self, tables: &SBoxTables, server_key: &ServerKey)
        requires
            old(self).valid(*server_key),
            tables.wf(),
        ensures
            final(self).valid(*server_key),
            forall|ck: ClientKey| #[trigger]
                key_pair(ck, *server_key) ==> final(self).cells(ck) == aes::inv_sub_bytes(old(self).cells(ck)),
    {
        let out = inv_sub_all(&self.data, tables, server_key);
        proof {
            assert forall|ck: ClientKey| #[trigger] key_pair(ck, *server_key) implies values(ck, out@)
                == aes::inv_sub_bytes(self.cells(ck)) by {
                assert forall|i: int| 0 <= i < 16 implies values(ck, out@)[i] == inv_sbox(self.cells(ck)[i]) by {
                    assert(out[i].value(ck) == inv_sbox(self.data[i].value(ck)));
                }
                reveal(aes::inv_sub_bytes);
                assert(values(ck, out@) =~= aes::inv_sub_bytes(self.cells(ck)));
            }
        }
        self.data = to_array(out);
    }

    /// SubBytes. The S-box is compiled for this one call; `sub_bytes_with`
    /// shares compiled tables between calls.
    pub fn sub_bytes(&mut self, server_key: &ServerKey)
        requires
            old(self).valid(*server_key),
        ensures
            final(self).valid(*server_key),
            forall|ck: ClientKey| #[trigger]
                key_pair(ck, *server_key) ==> final(self).cells(ck) == aes::sub_bytes(old(self).cells(ck)),
    {
        let tables = SBoxTables::new();
        self.sub_bytes_with(&tables, server_key);
    }

    /// InvSubBytes. The inverse S-box is compiled for this one call;
    /// `inv_sub_bytes_with` shares compiled tables between calls.
    pub fn inv_sub_bytes(&mut self, server_key: &ServerKey)
        requires
            old(self).valid(*server_key),
        ensures
            final(self).valid(*server_key),
            forall|ck: ClientKey| #[trigger]
                key_pair(ck, *server_key) ==> final(self).cells(ck) == aes::inv_sub_bytes(old(self).cells(ck)),
    {
        let tables = SBoxTables::new();
        self.inv_sub_bytes_with(&tables, server_key);
    }

    /// ShiftRows: a permutation of the sixteen bytes. No gate is run.
    pub fn shift_rows(&mut self)
        requires
            old(self).bytes().len() == 16,
        ensures
            final(self).bytes().len() == 16,
            forall|i: int|
                0 <= i < 16 ==> (#[trigger] final(self).bytes()[i]).bits() == old(self).bytes()[4 * (i / 4) + (i % 4
                    + i / 4) % 4].bits(),
            forall|ck: ClientKey| #[trigger] final(self).cells(ck) == aes::shift_rows(old(self).cells(ck)),
            forall|sk: ServerKey| old(self).valid(sk) ==> #[trigger] final(self).valid(sk),
    {
        let order: Vec<usize> = vec![0, 1, 2, 3, 5, 6, 7, 4, 10, 11, 8, 9, 15, 12, 13, 14];
        let out = gather(&self.data, &order);
        proof {
            assert forall|i: int| 0 <= i < 16 implies (#[trigger] order[i]) == 4 * (i / 4) + (i % 4 + i / 4) % 4 by {}
            assert forall|ck: ClientKey| #[trigger] values(ck, out@) == aes::shift_rows(self.cells(ck)) by {
                reveal(aes::shift_rows);
                assert(values(ck, out@) =~= aes::shift_rows(self.cells(ck)));
            }
        }
        self.data = to_array(out);
    }

    /// InvShiftRows: a permutation of the sixteen bytes. No gate is run.
    pub fn inv_shift_rows(&mut self)
        requires
            old(self).bytes().len() == 16,
        ensures
            final(self).bytes().len() == 16,
            forall|i: int|
                0 <= i < 16 ==> (#[trigger] final(self).bytes()[i]).bits() == old(self).bytes()[4 * (i / 4) + (i % 4
                    + 4 - i / 4) % 4].bits(),
            forall|ck: ClientKey| #[trigger] final(self).cells(ck) == aes::inv_shift_rows(old(self).cells(ck)),
            forall|sk: ServerKey| old(self).valid(sk) ==> #[trigger] final(self).valid(sk),
    {
        let order: Vec<usize> = vec![0, 1, 2, 3, 7, 4, 5, 6, 10, 11, 8, 9, 13, 14, 15, 12];
        let out = gather(&self.data, &order);
        proof {
            assert forall|i: int| 0 <= i < 16 implies (#[trigger] order[i]) == 4 * (i / 4) + (i % 4 + 4 - i / 4)
                % 4 by {}
            assert forall|ck: ClientKey| #[trigger] values(ck, out@) == aes::inv_shift_rows(self.cells(ck)) by {
                reveal(aes::inv_shift_rows);
                assert(values(ck, out@) =~= aes::inv_shift_rows(self.cells(ck)));
            }
        }
        self.data = to_array(out);
    }
}


impl State {
    /// MixColumns, on the rows of the matrix: the sum of the three other
    /// rows, then the doubled row and the doubled next row added to it. Only
    /// XOR and the multiplication by `x` are run, every step on all bytes in
    /// parallel.
    #[verifier::rlimit(50)]
    pub fn mix_columns(&mut self, server_key: &ServerKey)
        requires
            old(self).valid(*server_key),
        ensures
            final(self).valid(*server_key),
            forall|ck: ClientKey| #[trigger]
                key_pair(ck, *server_key) ==> final(self).cells(ck) == aes::mix_columns(old(self).cells(ck)),
    {
        let first: Vec<usize> = vec![8, 9, 10, 11, 8, 9, 10, 11, 0, 1, 2, 3, 0, 1, 2, 3];
        let second: Vec<usize> = vec![12, 13, 14, 15, 12, 13, 14, 15, 4, 5, 6, 7, 4, 5, 6, 7];
        let third: Vec<usize> = vec![4, 5, 6, 7, 0, 1, 2, 3, 12, 13, 14, 15, 8, 9, 10, 11];
        let next: Vec<usize> = vec![4, 5, 6, 7, 8, 9, 10, 11, 12, 13, 14, 15, 0, 1, 2, 3];
        proof {
            assert forall|i: int| 0 <= i < 16 implies (#[trigger] first[i]) == (if i < 8 {
                8 + i % 4
            } else {
                i % 4
            }) by {}
            assert forall|i: int| 0 <= i < 16 implies (#[trigger] second[i]) == (if i < 8 {
                12 + i % 4
            } else {
                4 + i % 4
            }) by {}
            assert forall|i: int| 0 <= i < 16 implies (#[trigger] third[i]) == (if i < 4 {
                4 + i
            } else if i < 8 {
                i - 4
            } else if i < 12 {
                i + 4
            } else {
                i - 4
            }) by {}
            assert forall|i: int| 0 <= i < 16 implies (#[trigger] next[i]) == (i + 4) % 16 by {}
        }
        let a = gather(&self.data, &first);
        let b = gather(&self.data, &second);
        let c = gather(&self.data, &third);
        let y1 = xor_all(&a, &b, server_key);
        let y2 = xor_all(&y1, &c, server_key);
        let doubled = mul_x_all(&self.data, server_key);
        let y3 = xor_all(&y2, &doubled, server_key);
        let e = gather(&doubled, &next);
        let y4 = xor_all(&y3, &e, server_key);
        proof {
            assert forall|ck: ClientKey| #[trigger] key_pair(ck, *server_key) implies values(ck, y4@)
                == aes::mix_columns(self.cells(ck)) by {
                let m = self.cells(ck);
                let am = values(ck, a@);
                let bm = values(ck, b@);
                let cm = values(ck, c@);
                let xm = values(ck, doubled@);
                let em = values(ck, e@);
                let y1m = values(ck, y1@);
                let y2m = values(ck, y2@);
                let y3m = values(ck, y3@);
                let y4m = values(ck, y4@);
                assert forall|i: int| 0 <= i < 16 implies am[i] == m[first[i] as int] && bm[i] == m[second[i] as int]
                    && cm[i] == m[third[i] as int] by {
                    assert(a[i].bits() == self.data[first[i] as int].bits());
                    assert(b[i].bits() == self.data[second[i] as int].bits());
                    assert(c[i].bits() == self.data[third[i] as int].bits());
                }
                assert forall|i: int| 0 <= i < 16 implies xm[i] == xtime(m[i]) by {
                    assert(doubled[i].value(ck) == xtime(self.data[i].value(ck)));
                }
                assert forall|i: int| 0 <= i < 16 implies em[i] == xm[(i + 4) % 16] by {
                    assert(e[i].bits() == doubled[next[i] as int].bits());
                }
                assert forall|i: int| 0 <= i < 16 implies y1m[i] == am[i] ^ bm[i] by {
                    assert(y1[i].value(ck) == a[i].value(ck) ^ b[i].value(ck));
                }
                assert forall|i: int| 0 <= i < 16 implies y2m[i] == y1m[i] ^ cm[i] by {
                    assert(y2[i].value(ck) == y1[i].value(ck) ^ c[i].value(ck));
                }
                assert forall|i: int| 0 <= i < 16 implies y3m[i] == y2m[i] ^ xm[i] by {
                    assert(y3[i].value(ck) == y2[i].value(ck) ^ doubled[i].value(ck));
                }
                assert forall|i: int| 0 <= i < 16 implies y4m[i] == y3m[i] ^ em[i] by {
                    assert(y4[i].value(ck) == y3[i].value(ck) ^ e[i].value(ck));
                }
                assert forall|i: int| 0 <= i < 16 implies y4m[i] == (((m[first[i] as int] ^ m[second[i] as int])
                    ^ m[third[i] as int]) ^ xtime(m[i])) ^ xtime(m[(i + 4) % 16]) by {
                    assert(y4m[i] == y3m[i] ^ em[i]);
                    assert(y3m[i] == y2m[i] ^ xm[i]);
                    assert(y2m[i] == y1m[i] ^ cm[i]);
                    assert(y1m[i] == am[i] ^ bm[i]);
                    assert(em[i] == xm[(i + 4) % 16]);
                }
                assert forall|col: int| 0 <= col < 4 implies #[trigger] y4m[col] == (((m[8 + col] ^ m[12 + col])
                    ^ m[4 + col]) ^ xtime(m[col])) ^ xtime(m[4 + col]) by {
                    assert(first[col] == 8 + col && second[col] == 12 + col && third[col] == 4 + col);
                }
                assert forall|col: int| 0 <= col < 4 implies #[trigger] y4m[4 + col] == (((m[8 + col] ^ m[12
                    + col]) ^ m[col]) ^ xtime(m[4 + col])) ^ xtime(m[8 + col]) by {
                    assert(first[4 + col] == 8 + col && second[4 + col] == 12 + col && third[4 + col] == col);
                }
                assert forall|col: int| 0 <= col < 4 implies #[trigger] y4m[8 + col] == (((m[col] ^ m[4 + col])
                    ^ m[12 + col]) ^ xtime(m[8 + col])) ^ xtime(m[12 + col]) by {
                    assert(first[8 + col] == col && second[8 + col] == 4 + col && third[8 + col] == 12 + col);
                }
                assert forall|col: int| 0 <= col < 4 implies #[trigger] y4m[12 + col] == (((m[col] ^ m[4 + col])
                    ^ m[8 + col]) ^ xtime(m[12 + col])) ^ xtime(m[col]) by {
                    assert(first[12 + col] == col && second[12 + col] == 4 + col && third[12 + col] == 8 + col);
                }
                aes::lemma_mix_columns_steps(m, y4m);
            }
        }
        self.data = to_array(y4);
    }

    /// InvMixColumns, as MixColumns with a correction: the doubled sums of
    /// neighbouring rows, four times the sums of rows two apart, and once and
    /// eight times the sum of the whole column are added to every byte. Only
    /// XOR and the multiplication by `x` are run, every step on all bytes in
    /// parallel.
    #[verifier::rlimit(50)]
    pub fn inv_mix_columns(&mut self, server_key: &ServerKey)
        requires
            old(self).valid(*server_key),
        ensures
            final(self).valid(*server_key),
            forall|ck: ClientKey| #[trigger]
                key_pair(ck, *server_key) ==> final(self).cells(ck) == aes::inv_mix_columns(old(self).cells(ck)),
    {
        let next: Vec<usize> = vec![4, 5, 6, 7, 8, 9, 10, 11, 12, 13, 14, 15, 0, 1, 2, 3];
        let low: Vec<usize> = vec![0, 1, 2, 3, 4, 5, 6, 7];
        let high: Vec<usize> = vec![8, 9, 10, 11, 12, 13, 14, 15];
        let top: Vec<usize> = vec![0, 1, 2, 3];
        let mid: Vec<usize> = vec![8, 9, 10, 11];
        let twice: Vec<usize> = vec![0, 1, 2, 3, 4, 5, 6, 7, 0, 1, 2, 3, 4, 5, 6, 7];
        let four_times: Vec<usize> = vec![0, 1, 2, 3, 0, 1, 2, 3, 0, 1, 2, 3, 0, 1, 2, 3];
        proof {
            assert forall|i: int| 0 <= i < 16 implies (#[trigger] next[i]) == (i + 4) % 16 by {}
            assert forall|i: int| 0 <= i < 8 implies (#[trigger] low[i]) == i by {}
            assert forall|i: int| 0 <= i < 8 implies (#[trigger] high[i]) == i + 8 by {}
            assert forall|i: int| 0 <= i < 4 implies (#[trigger] top[i]) == i by {}
            assert forall|i: int| 0 <= i < 4 implies (#[trigger] mid[i]) == i + 8 by {}
            assert forall|i: int| 0 <= i < 16 implies (#[trigger] twice[i]) == i % 8 by {}
            assert forall|i: int| 0 <= i < 16 implies (#[trigger] four_times[i]) == i % 4 by {}
        }
        let turned = gather(&self.data, &next);
        let y = xor_all(&self.data, &turned, server_key);
        let lower = gather(&self.data, &low);
        let upper = gather(&self.data, &high);
        let pairs = xor_all(&lower, &upper, server_key);
        let pairs2 = mul_x_all(&pairs, server_key);
        let pairs4 = mul_x_all(&pairs2, server_key);
        let y_top = gather(&y, &top);
        let y_mid = gather(&y, &mid);
        let sum = xor_all(&y_top, &y_mid, server_key);
        let temp_0 = gather(&pairs4, &twice);
        let y2 = mul_x_all(&y, server_key);
        let y3 = xor_all(&y2, &temp_0, server_key);
        let sums = gather(&sum, &four_times);
        let d1 = xor_all(&self.data, &y3, server_key);
        let d2 = xor_all(&d1, &sums, server_key);
        let sum2 = mul_x_all(&sum, server_key);
        let sum4 = mul_x_all(&sum2, server_key);
        let sum8 = mul_x_all(&sum4, server_key);
        let sums8 = gather(&sum8, &four_times);
        let d3 = xor_all(&d2, &sums8, server_key);
        proof {
            assert forall|ck: ClientKey| #[trigger] key_pair(ck, *server_key) implies values(ck, d3@)
                == aes::inv_mix_columns(self.cells(ck)) by {
                let m = self.cells(ck);
                let ym = values(ck, y@);
                let pm = values(ck, pairs4@);
                let sm = values(ck, sum@);
                let zm = values(ck, y3@);
                let tm = values(ck, sum8@);
                let dm = values(ck, d3@);
                assert forall|i: int| 0 <= i < 16 implies #[trigger] ym[i] == m[i] ^ m[(i + 4) % 16] by {
                    assert(y[i].value(ck) == self.data[i].value(ck) ^ turned[i].value(ck));
                    assert(turned[i].bits() == self.data[next[i] as int].bits());
                }
                assert forall|i: int| 0 <= i < 8 implies #[trigger] pm[i] == xtime(xtime(m[i] ^ m[i + 8])) by {
                    assert(pairs[i].value(ck) == lower[i].value(ck) ^ upper[i].value(ck));
                    assert(lower[i].bits() == self.data[low[i] as int].bits());
                    assert(upper[i].bits() == self.data[high[i] as int].bits());
                    assert(pairs2[i].value(ck) == xtime(pairs[i].value(ck)));
                    assert(pairs4[i].value(ck) == xtime(pairs2[i].value(ck)));
                }
                assert forall|col: int| 0 <= col < 4 implies #[trigger] sm[col] == ym[col] ^ ym[8 + col] by {
                    assert(sum[col].value(ck) == y_top[col].value(ck) ^ y_mid[col].value(ck));
                    assert(y_top[col].bits() == y[top[col] as int].bits());
                    assert(y_mid[col].bits() == y[mid[col] as int].bits());
                }
                assert forall|i: int| 0 <= i < 16 implies #[trigger] zm[i] == xtime(ym[i]) ^ pm[i % 8] by {
                    assert(y3[i].value(ck) == y2[i].value(ck) ^ temp_0[i].value(ck));
                    assert(y2[i].value(ck) == xtime(y[i].value(ck)));
                    assert(temp_0[i].bits() == pairs4[twice[i] as int].bits());
                }
                assert forall|col: int| 0 <= col < 4 implies #[trigger] tm[col] == xtime(xtime(xtime(sm[col]))) by {
                    assert(sum2[col].value(ck) == xtime(sum[col].value(ck)));
                    assert(sum4[col].value(ck) == xtime(sum2[col].value(ck)));
                    assert(sum8[col].value(ck) == xtime(sum4[col].value(ck)));
                }
                assert forall|i: int| 0 <= i < 16 implies #[trigger] dm[i] == ((m[i] ^ zm[i]) ^ sm[i % 4]) ^ tm[i
                    % 4] by {
                    assert(d3[i].value(ck) == d2[i].value(ck) ^ sums8[i].value(ck));
                    assert(d2[i].value(ck) == d1[i].value(ck) ^ sums[i].value(ck));
                    assert(d1[i].value(ck) == self.data[i].value(ck) ^ y3[i].value(ck));
                    assert(sums[i].bits() == sum[four_times[i] as int].bits());
                    assert(sums8[i].bits() == sum8[four_times[i] as int].bits());
                }
                aes::lemma_inv_mix_columns_steps(m, ym, pm, sm, zm, tm, dm);
            }
        }
        self.data = to_array(d3);
    }
}


/// The matrices that `ck` decrypts a row of states to.
pub open spec fn cells_of(ck: ClientKey, states: Seq<State>) -> Seq<Seq<u8>> {
    Seq::new(states.len(), |i: int| states[i].cells(ck))
}

/// The gates of `sk` accept every state of the row.
pub open spec fn states_valid(sk: ServerKey, states: Seq<State>) -> bool {
    forall|i: int| 0 <= i < states.len() ==> (#[trigger] states[i]).valid(sk)
}

impl State {
    /// The two states hold the same ciphertexts.
    pub open spec fn same_as(&self, other: State) -> bool {
        self.bytes().len() == other.bytes().len() && forall|i: int|
            0 <= i < self.bytes().len() ==> (#[trigger] self.bytes()[i]).bits() == other.bytes()[i].bits()
    }
}

/// States that hold the same ciphertexts decrypt to the same matrix, and the
/// same server keys accept them.
pub proof fn lemma_same_state(a: State, b: State)
    requires
        a.same_as(b),
    ensures
        forall|ck: ClientKey| #[trigger] a.cells(ck) == b.cells(ck),
        forall|sk: ServerKey| #[trigger] a.valid(sk) == b.valid(sk),
{
    assert forall|ck: ClientKey| #[trigger] a.cells(ck) == b.cells(ck) by {
        assert(a.cells(ck) =~= b.cells(ck));
    }
    assert forall|sk: ServerKey| #[trigger] a.valid(sk) == b.valid(sk) by {
        if a.valid(sk) {
            assert forall|i: int| 0 <= i < 16 implies (#[trigger] b.bytes()[i]).valid(sk) by {
                assert(a.bytes()[i].valid(sk));
            }
        }
        if b.valid(sk) {
            assert forall|i: int| 0 <= i < 16 implies (#[trigger] a.bytes()[i]).valid(sk) by {
                assert(b.bytes()[i].valid(sk));
            }
        }
    }
}


/// Every state of the row can be decrypted by `ck`.
pub open spec fn states_open(ck: ClientKey, states: Seq<State>) -> bool {
    forall|i: int| 0 <= i < states.len() ==> (#[trigger] states[i]).opens_with(ck)
}

/// Encrypts every block of a row.
pub fn encrypt_blocks(blocks: &[[u8; 16]], client_key: &ClientKey) -> (states: Vec<State>)
    ensures
        states.len() == blocks@.len(),
        forall|i: int| 0 <= i < states.len() ==> (#[trigger] states[i]).bytes().len() == 16,
        forall|i: int| 0 <= i < states.len() ==> (#[trigger] states[i]).block(*client_key) == blocks@[i]@,
        forall|sk: ServerKey| #[trigger] key_pair(*client_key, sk) ==> states_valid(sk, states@),
{
    let mut states: Vec<State> = Vec::with_capacity(blocks.len());
    let mut i: usize = 0;
    while i < blocks.len()
        invariant
            i <= blocks.len(),
            states.len() == i,
            forall|j: int| 0 <= j < i ==> (#[trigger] states[j]).bytes().len() == 16,
            forall|j: int| 0 <= j < i ==> (#[trigger] states[j]).block(*client_key) == blocks@[j]@,
            forall|sk: ServerKey, j: int|
                #![trigger key_pair(*client_key, sk), states[j]]
                key_pair(*client_key, sk) && 0 <= j < i ==> states[j].valid(sk),
        decreases blocks.len() - i,
    {
        states.push(State::from_u8_enc(&blocks[i], client_key));
        i += 1;
    }
    states
}

/// Decrypts every state of a row.
pub fn decrypt_blocks(states: &Vec<State>, client_key: &ClientKey) -> (blocks: Vec<[u8; 16]>)
    requires
        states_open(*client_key, states@),
    ensures
        blocks.len() == states.len(),
        forall|i: int| 0 <= i < blocks.len() ==> (#[trigger] blocks[i])@ == states[i].block(*client_key),
{
    let mut blocks: Vec<[u8; 16]> = Vec::with_capacity(states.len());
    let mut i: usize = 0;
    while i < states.len()
        invariant
            i <= states.len(),
            blocks.len() == i,
            states_open(*client_key, states@),
            forall|j: int| 0 <= j < i ==> (#[trigger] blocks[j])@ == states[j].block(*client_key),
        decreases states.len() - i,
    {
        assert(states[i as int].opens_with(*client_key));
        blocks.push(states[i].decrypt_to_u8(client_key));
        i += 1;
    }
    blocks
}

} // verus!
