//! The modes of operation on plain blocks, with the block cipher of the `aes`
//! crate: what the encrypted evaluation is compared with.

use crate::aes::add_round_key;
use aes::cipher::generic_array::GenericArray;
use aes::cipher::{BlockEncrypt, KeyInit};
use aes::Aes128;
use vstd::prelude::*;

verus! {

/// The block that `Aes128` of the `aes` crate makes of `block` under `key`.
pub uninterp spec fn aes128_block(key: Seq<u8>, block: Seq<u8>) -> Seq<u8>;

/// `Aes128::new` with the key, then `BlockEncrypt::encrypt_block` on a copy
/// of the block: the encryption of one block, which depends on the key and
/// the block alone.
#[verifier::external_body]
pub(crate) fn aes128_encrypt(key: &[u8; 16], block: &[u8; 16]) -> (r: [u8; 16])
    ensures
        r@ == aes128_block(key@, block@),
{
    let cipher = Aes128::new(GenericArray::from_slice(key));
    let mut out = *block;
    cipher.encrypt_block(GenericArray::from_mut_slice(&mut out));
    out
}

/// The sum of two blocks, byte by byte.
fn xor_blocks(a: &[u8; 16], b: &[u8; 16]) -> (r: [u8; 16])
    ensures
        r@ == add_round_key(a@, b@),
{
    let mut out: [u8; 16] = [0u8; 16];
    let mut j: usize = 0;
    while j < 16
        invariant
            j <= 16,
            forall|t: int| 0 <= t < j ==> out[t] == a[t] ^ b[t],
        decreases 16 - j,
    {
        out[j] = a[j] ^ b[j];
        j += 1;
    }
    proof {
        reveal(add_round_key);
        assert(out@ =~= add_round_key(a@, b@));
    }
    out
}

/// Ciphertext block `i` of cipher block chaining on plain blocks.
pub open spec fn clear_cbc_block(key: Seq<u8>, iv: Seq<u8>, blocks: Seq<[u8; 16]>, i: nat) -> Seq<u8>
    decreases i,
{
    aes128_block(
        key,
        add_round_key(
            blocks[i as int]@,
            if i == 0 {
                iv
            } else {
                clear_cbc_block(key, iv, blocks, (i - 1) as nat)
            },
        ),
    )
}

/// Block `i` of the key stream of output feedback on plain blocks.
pub open spec fn clear_ofb_stream(key: Seq<u8>, iv: Seq<u8>, i: nat) -> Seq<u8>
    decreases i,
{
    aes128_block(
        key,
        if i == 0 {
            iv
        } else {
            clear_ofb_stream(key, iv, (i - 1) as nat)
        },
    )
}

/// Cipher block chaining on plain blocks: every block is added to the
/// ciphertext block before it, the first to `iv`, and encrypted.
pub fn cbc_encrypt_clear(blocks: &[[u8; 16]], key: &[u8; 16], iv: &[u8; 16]) -> (ciphertext: Vec<[u8; 16]>)
    ensures
        ciphertext.len() == blocks@.len(),
        forall|i: int|
            0 <= i < ciphertext.len() ==> (#[trigger] ciphertext[i])@ == clear_cbc_block(key@, iv@, blocks@, i as nat),
{
    let mut prev_cipher: [u8; 16] = *iv;
    let mut ciphertext: Vec<[u8; 16]> = Vec::with_capacity(blocks.len());
    let mut i: usize = 0;
    while i < blocks.len()
        invariant
            i <= blocks.len(),
            ciphertext.len() == i,
            prev_cipher@ == (if i == 0 {
                iv@
            } else {
                clear_cbc_block(key@, iv@, blocks@, (i - 1) as nat)
            }),
            forall|j: int|
                0 <= j < i ==> (#[trigger] ciphertext[j])@ == clear_cbc_block(key@, iv@, blocks@, j as nat),
        decreases blocks.len() - i,
    {
        let mixed = xor_blocks(&blocks[i], &prev_cipher);
        let block = aes128_encrypt(key, &mixed);
        ciphertext.push(block);
        prev_cipher = block;
        i += 1;
    }
    ciphertext
}

/// Counter mode on plain blocks: every block is added to the encryption of
/// its counter. There is one result for every counter.
pub fn ctr_encrypt_clear(blocks: &[[u8; 16]], key: &[u8; 16], counters: &[[u8; 16]]) -> (result: Vec<[u8; 16]>)
    requires
        blocks@.len() >= counters@.len(),
    ensures
        result.len() == counters@.len(),
        forall|i: int|
            0 <= i < result.len() ==> (#[trigger] result[i])@ == add_round_key(
                aes128_block(key@, counters@[i]@),
                blocks@[i]@,
            ),
{
    let mut result: Vec<[u8; 16]> = Vec::with_capacity(counters.len());
    let mut i: usize = 0;
    while i < counters.len()
        invariant
            i <= counters.len(),
            blocks@.len() >= counters@.len(),
            result.len() == i,
            forall|j: int|
                0 <= j < i ==> (#[trigger] result[j])@ == add_round_key(
                    aes128_block(key@, counters@[j]@),
                    blocks@[j]@,
                ),
        decreases counters.len() - i,
    {
        let stream = aes128_encrypt(key, &counters[i]);
        result.push(xor_blocks(&stream, &blocks[i]));
        i += 1;
    }
    result
}

/// Output feedback on plain blocks: the cipher is applied to `iv` again and
/// again, and every output is added to one block.
pub fn ofb_encrypt_clear(blocks: &[[u8; 16]], key: &[u8; 16], iv: &[u8; 16]) -> (result: Vec<[u8; 16]>)
    ensures
        result.len() == blocks@.len(),
        forall|i: int|
            0 <= i < result.len() ==> (#[trigger] result[i])@ == add_round_key(
                blocks@[i]@,
                clear_ofb_stream(key@, iv@, i as nat),
            ),
{
    let mut result: Vec<[u8; 16]> = Vec::with_capacity(blocks.len());
    let mut curr_cipher: [u8; 16] = aes128_encrypt(key, iv);
    let mut i: usize = 0;
    while i < blocks.len()
        invariant
            i <= blocks.len(),
            result.len() == i,
            curr_cipher@ == clear_ofb_stream(key@, iv@, i as nat),
            forall|j: int|
                0 <= j < i ==> (#[trigger] result[j])@ == add_round_key(
                    blocks@[j]@,
                    clear_ofb_stream(key@, iv@, j as nat),
                ),
        decreases blocks.len() - i,
    {
        result.push(xor_blocks(&blocks[i], &curr_cipher));
        curr_cipher = aes128_encrypt(key, &curr_cipher);
        i += 1;
    }
    result
}

} // verus!
