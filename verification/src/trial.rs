//! Trials of the modes: a row of blocks is encrypted and decrypted again on
//! ciphertexts, and the same row is encrypted in the clear to compare with.

use crate::aes;
use crate::clear::{
    aes128_block, aes128_encrypt, cbc_encrypt_clear, clear_cbc_block, clear_ofb_stream, ctr_encrypt_clear,
    ofb_encrypt_clear,
};
use crate::config::{counter_block, generate_counters, Mode};
use crate::gates::{generate_keys, key_pair};
use crate::key_schedule::{key_expansion, Key};
use crate::modes::cbc::CBC;
use crate::modes::ctr::CTR;
use crate::modes::ecb::{keys_valid, schedule_of, ECB};
use crate::modes::ofb::OFB;
use crate::state::{cells_of, decrypt_blocks, encrypt_blocks, lemma_same_state, states_open, states_valid, State};
use tfhe::boolean::client_key::ClientKey;
use tfhe::boolean::server_key::ServerKey;
use vstd::prelude::*;

verus! {

/// What a trial found: the blocks that the mode made on ciphertexts, the
/// blocks that the same mode makes in the clear, and the blocks that came
/// back from decrypting on ciphertexts.
pub struct Trial {
    pub encrypted: Vec<[u8; 16]>,
    pub expected: Vec<[u8; 16]>,
    pub decrypted: Vec<[u8; 16]>,
}

/// Whether two rows of blocks are the same.
pub fn same_blocks(a: &Vec<[u8; 16]>, b: &[[u8; 16]]) -> (r: bool)
    ensures
        r == (a.len() == b@.len() && forall|i: int| 0 <= i < a.len() ==> (#[trigger] a[i])@ == b@[i]@),
{
    if a.len() != b.len() {
        return false;
    }
    let mut i: usize = 0;
    while i < a.len()
        invariant
            i <= a.len(),
            a.len() == b@.len(),
            forall|j: int| 0 <= j < i ==> (#[trigger] a[j])@ == b@[j]@,
        decreases a.len() - i,
    {
        let mut j: usize = 0;
        while j < 16
            invariant
                j <= 16,
                i < a.len(),
                a.len() == b@.len(),
                forall|t: int| 0 <= t < j ==> a[i as int][t] == b@[i as int][t],
            decreases 16 - j,
        {
            if a[i][j] != b[i][j] {
                assert(a[i as int]@[j as int] != b@[i as int]@[j as int]);
                return false;
            }
            j += 1;
        }
        assert(a[i as int]@ =~= b@[i as int]@);
        i += 1;
    }
    true
}

impl Trial {
    /// The trial passed: the mode on ciphertexts made the blocks of the mode
    /// in the clear, and decrypting gave the blocks of the start back.
    pub fn passed(&self, blocks: &[[u8; 16]]) -> (r: bool)
        ensures
            r == ((self.encrypted.len() == self.expected.len() && forall|i: int|
                0 <= i < self.encrypted.len() ==> (#[trigger] self.encrypted[i])@ == self.expected[i]@) && (
            self.decrypted.len() == blocks@.len() && forall|i: int|
                0 <= i < self.decrypted.len() ==> (#[trigger] self.decrypted[i])@ == blocks@[i]@)),
    {
        same_blocks(&self.encrypted, self.expected.as_slice()) && same_blocks(&self.decrypted, blocks)
    }
}

/// The round keys that were expanded from `key` decrypt to the schedule of `key`.
pub proof fn lemma_expanded_schedule(ck: ClientKey, keys: Seq<Key>, key: Seq<u8>)
    requires
        keys.len() == 11,
        forall|r: int| 0 <= r < 11 ==> (#[trigger] keys[r]).block(ck) == aes::round_key(key, r as nat),
        forall|r: int| 0 <= r < 11 ==> (#[trigger] keys[r]).data@.len() == 16,
    ensures
        schedule_of(ck, keys) == aes::schedule(key),
{
    assert forall|r: int| 0 <= r < 11 implies schedule_of(ck, keys)[r] == aes::schedule(key)[r] by {
        aes::lemma_transpose_twice(keys[r].cells(ck));
    }
    assert(schedule_of(ck, keys) =~= aes::schedule(key));
}

/// Electronic codebook on trial: every block is encrypted with the cipher on
/// ciphertexts and decrypted again. The encrypted blocks are the AES-128
/// encryptions of the blocks, and decrypting gives every block back.
pub fn test_ecb(
    key: &[u8; 16],
    blocks: &[[u8; 16]],
    key_expansion_offline: bool,
    server_key: &ServerKey,
    client_key: &ClientKey,
) -> (r: Trial)
    requires
        key_pair(*client_key, *server_key),
    ensures
        r.encrypted.len() == blocks@.len(),
        r.expected.len() == blocks@.len(),
        r.decrypted.len() == blocks@.len(),
        forall|i: int|
            0 <= i < blocks@.len() ==> (#[trigger] r.encrypted[i])@ == aes::encrypt_block(key@, blocks@[i]@),
        forall|i: int| 0 <= i < blocks@.len() ==> (#[trigger] r.expected[i])@ == aes128_block(key@, blocks@[i]@),
        forall|i: int| 0 <= i < blocks@.len() ==> (#[trigger] r.decrypted[i])@ == blocks@[i]@,
{
    let keys = key_expansion(key, key_expansion_offline, server_key, client_key);
    let ecb = ECB::new(keys.as_slice());
    proof {
        lemma_expanded_schedule(*client_key, keys@, key@);
        assert(keys_valid(*server_key, keys@));
    }
    let mut encrypted: Vec<[u8; 16]> = Vec::with_capacity(blocks.len());
    let mut expected: Vec<[u8; 16]> = Vec::with_capacity(blocks.len());
    let mut decrypted: Vec<[u8; 16]> = Vec::with_capacity(blocks.len());
    let mut i: usize = 0;
    while i < blocks.len()
        invariant
            i <= blocks.len(),
            key_pair(*client_key, *server_key),
            ecb.valid(*server_key),
            ecb.schedule(*client_key) == aes::schedule(key@),
            encrypted.len() == i,
            expected.len() == i,
            decrypted.len() == i,
            forall|j: int| 0 <= j < i ==> (#[trigger] encrypted[j])@ == aes::encrypt_block(key@, blocks@[j]@),
            forall|j: int| 0 <= j < i ==> (#[trigger] expected[j])@ == aes128_block(key@, blocks@[j]@),
            forall|j: int| 0 <= j < i ==> (#[trigger] decrypted[j])@ == blocks@[j]@,
        decreases blocks.len() - i,
    {
        expected.push(aes128_encrypt(key, &blocks[i]));
        let mut state = State::from_u8_enc(&blocks[i], client_key);
        let ghost before = state.cells(*client_key);
        proof {
            assert(state.valid(*server_key));
            aes::lemma_transpose_twice(blocks@[i as int]@);
            aes::lemma_transpose_twice(before);
            assert(before == aes::transpose(blocks@[i as int]@));
        }
        ecb.encrypt(&mut state, server_key);
        proof {
            assert(key_pair(*client_key, *server_key) && state.valid(*server_key));
        }
        encrypted.push(state.decrypt_to_u8(client_key));
        ecb.decrypt(&mut state, server_key);
        proof {
            assert(key_pair(*client_key, *server_key) && state.valid(*server_key));
            aes::lemma_cipher_inverse(aes::schedule(key@), before);
        }
        decrypted.push(state.decrypt_to_u8(client_key));
        i += 1;
    }
    Trial { encrypted, expected, decrypted }
}


/// The matrices of a row of blocks.
pub open spec fn matrices_of(blocks: Seq<[u8; 16]>) -> Seq<Seq<u8>> {
    Seq::new(blocks.len(), |i: int| aes::transpose(blocks[i]@))
}

/// States that decrypt to a row of blocks decrypt to the matrices of the row.
pub proof fn lemma_cells_of_blocks(ck: ClientKey, states: Seq<State>, blocks: Seq<[u8; 16]>)
    requires
        states.len() == blocks.len(),
        forall|i: int| 0 <= i < states.len() ==> (#[trigger] states[i]).bytes().len() == 16,
        forall|i: int| 0 <= i < states.len() ==> (#[trigger] states[i]).block(ck) == blocks[i]@,
    ensures
        cells_of(ck, states) == matrices_of(blocks),
{
    assert forall|i: int| 0 <= i < states.len() implies cells_of(ck, states)[i] == matrices_of(blocks)[i] by {
        assert(states[i].block(ck) == blocks[i]@);
        aes::lemma_transpose_twice(states[i].cells(ck));
    }
    assert(cells_of(ck, states) =~= matrices_of(blocks));
}

/// States that the gates of a server key of `ck` accept can be decrypted by `ck`.
pub proof fn lemma_states_open(ck: ClientKey, sk: ServerKey, states: Seq<State>)
    requires
        key_pair(ck, sk),
        states_valid(sk, states),
    ensures
        states_open(ck, states),
{
    assert forall|i: int| 0 <= i < states.len() implies (#[trigger] states[i]).opens_with(ck) by {
        assert(key_pair(ck, sk) && states[i].valid(sk));
    }
}

/// Cipher block chaining on trial: the row is encrypted on ciphertexts and
/// decrypted again. The encrypted blocks are those of the chain under the
/// round keys of `key`, and decrypting gives every block back.
pub fn test_cbc(
    key: &[u8; 16],
    iv: &[u8; 16],
    blocks: &[[u8; 16]],
    key_expansion_offline: bool,
    number_of_outputs: u8,
    server_key: &ServerKey,
    client_key: &ClientKey,
) -> (r: Trial)
    requires
        key_pair(*client_key, *server_key),
        blocks@.len() == number_of_outputs,
        number_of_outputs >= 1,
    ensures
        r.encrypted.len() == blocks@.len(),
        r.expected.len() == blocks@.len(),
        r.decrypted.len() == blocks@.len(),
        forall|i: int|
            0 <= i < blocks@.len() ==> (#[trigger] r.encrypted[i])@ == aes::transpose(
                aes::cbc_cipher_block(aes::schedule(key@), aes::transpose(iv@), matrices_of(blocks@), i as nat),
            ),
        forall|i: int|
            0 <= i < blocks@.len() ==> (#[trigger] r.expected[i])@ == clear_cbc_block(key@, iv@, blocks@, i as nat),
        forall|i: int| 0 <= i < blocks@.len() ==> (#[trigger] r.decrypted[i])@ == blocks@[i]@,
{
    let expected = cbc_encrypt_clear(blocks, key, iv);
    let keys = key_expansion(key, key_expansion_offline, server_key, client_key);
    let iv_state = State::from_u8_enc(iv, client_key);
    let cbc = CBC::new(keys.as_slice(), &iv_state, number_of_outputs);
    let mut states = encrypt_blocks(blocks, client_key);
    let ghost plain = states@;
    let ghost schedule = aes::schedule(key@);
    let ghost first = aes::transpose(iv@);
    proof {
        lemma_expanded_schedule(*client_key, keys@, key@);
        assert(keys_valid(*server_key, keys@));
        lemma_same_state(cbc.initial(), iv_state);
        assert(iv_state.valid(*server_key));
        aes::lemma_transpose_twice(iv_state.cells(*client_key));
        lemma_cells_of_blocks(*client_key, plain, blocks@);
        assert(states_valid(*server_key, states@));
    }
    cbc.encrypt(states.as_mut_slice(), server_key);
    let ghost crypt = states@;
    proof {
        lemma_states_open(*client_key, *server_key, states@);
    }
    let encrypted = decrypt_blocks(&states, client_key);
    cbc.decrypt(states.as_mut_slice(), server_key);
    proof {
        lemma_states_open(*client_key, *server_key, states@);
        assert forall|i: int| 0 <= i < blocks@.len() implies (#[trigger] states@[i]).block(*client_key)
            == blocks@[i]@ by {
            assert(key_pair(*client_key, *server_key));
            let crypt_cells = cells_of(*client_key, crypt);
            assert forall|j: int| 0 <= j < blocks@.len() implies #[trigger] crypt_cells[j] == aes::cbc_cipher_block(
                schedule,
                first,
                matrices_of(blocks@),
                j as nat,
            ) by {
                assert(crypt[j].cells(*client_key) == aes::cbc_cipher_block(
                    schedule,
                    first,
                    matrices_of(blocks@),
                    j as nat,
                ));
            }
            aes::lemma_transpose_twice(blocks@[i]@);
            aes::lemma_cbc_round_trip(schedule, first, matrices_of(blocks@), crypt_cells, i as nat);
            assert(states@[i].cells(*client_key) == aes::cbc_plain_block(schedule, first, crypt_cells, i as nat));
        }
    }
    let decrypted = decrypt_blocks(&states, client_key);
    Trial { encrypted, expected, decrypted }
}

/// Counter mode on trial: the row is encrypted on ciphertexts with the
/// encrypted counters and decrypted again. The encrypted blocks are the
/// blocks plus the ciphers of the counters under the round keys of `key`,
/// and decrypting gives every block back.
pub fn test_ctr(
    key: &[u8; 16],
    counters: &[[u8; 16]],
    blocks: &[[u8; 16]],
    key_expansion_offline: bool,
    number_of_outputs: u8,
    server_key: &ServerKey,
    client_key: &ClientKey,
) -> (r: Trial)
    requires
        key_pair(*client_key, *server_key),
        blocks@.len() == number_of_outputs,
        counters@.len() == number_of_outputs,
    ensures
        r.encrypted.len() == blocks@.len(),
        r.expected.len() == blocks@.len(),
        r.decrypted.len() == blocks@.len(),
        forall|i: int|
            0 <= i < blocks@.len() ==> (#[trigger] r.encrypted[i])@ == aes::transpose(
                aes::ctr_block(aes::schedule(key@), matrices_of(counters@), matrices_of(blocks@), i as nat),
            ),
        forall|i: int|
            0 <= i < blocks@.len() ==> (#[trigger] r.expected[i])@ == aes::add_round_key(
                aes128_block(key@, counters@[i]@),
                blocks@[i]@,
            ),
        forall|i: int| 0 <= i < blocks@.len() ==> (#[trigger] r.decrypted[i])@ == blocks@[i]@,
{
    let expected = ctr_encrypt_clear(blocks, key, counters);
    let keys = key_expansion(key, key_expansion_offline, server_key, client_key);
    let encrypted_counters = encrypt_blocks(counters, client_key);
    let ctr = CTR::new(keys.as_slice(), encrypted_counters.as_slice(), number_of_outputs);
    let mut states = encrypt_blocks(blocks, client_key);
    let ghost plain = states@;
    let ghost schedule = aes::schedule(key@);
    proof {
        lemma_expanded_schedule(*client_key, keys@, key@);
        assert(keys_valid(*server_key, keys@));
        assert(states_valid(*server_key, encrypted_counters@));
        assert forall|i: int| 0 <= i < ctr.counter_seq().len() implies (#[trigger] ctr.counter_seq()[i]).valid(
            *server_key,
        ) && ctr.counter_seq()[i].block(*client_key) == counters@[i]@ && ctr.counter_seq()[i].bytes().len()
            == 16 by {
            lemma_same_state(ctr.counter_seq()[i], encrypted_counters@[i]);
            assert(encrypted_counters@[i].valid(*server_key));
            assert(encrypted_counters@[i].block(*client_key) == counters@[i]@);
        }
        lemma_cells_of_blocks(*client_key, ctr.counter_seq(), counters@);
        lemma_cells_of_blocks(*client_key, plain, blocks@);
        assert(states_valid(*server_key, states@));
    }
    ctr.encrypt(states.as_mut_slice(), server_key);
    let ghost crypt = states@;
    proof {
        lemma_states_open(*client_key, *server_key, states@);
    }
    let encrypted = decrypt_blocks(&states, client_key);
    ctr.decrypt(states.as_mut_slice(), server_key);
    proof {
        lemma_states_open(*client_key, *server_key, states@);
        assert forall|i: int| 0 <= i < blocks@.len() implies (#[trigger] states@[i]).block(*client_key)
            == blocks@[i]@ by {
            assert(key_pair(*client_key, *server_key));
            let crypt_cells = cells_of(*client_key, crypt);
            assert(crypt[i].cells(*client_key) == aes::ctr_block(
                schedule,
                matrices_of(counters@),
                matrices_of(blocks@),
                i as nat,
            ));
            assert(crypt_cells[i] == crypt[i].cells(*client_key));
            aes::lemma_transpose_twice(blocks@[i]@);
            aes::lemma_ctr_round_trip(schedule, matrices_of(counters@), matrices_of(blocks@), crypt_cells, i as nat);
            assert(states@[i].cells(*client_key) == aes::ctr_block(
                schedule,
                matrices_of(counters@),
                crypt_cells,
                i as nat,
            ));
        }
    }
    let decrypted = decrypt_blocks(&states, client_key);
    Trial { encrypted, expected, decrypted }
}

/// Output feedback on trial: the row is encrypted on ciphertexts and
/// decrypted again. The encrypted blocks are the blocks plus the key stream
/// under the round keys of `key`, and decrypting gives every block back.
pub fn test_ofb(
    key: &[u8; 16],
    iv: &[u8; 16],
    blocks: &[[u8; 16]],
    key_expansion_offline: bool,
    number_of_outputs: u8,
    server_key: &ServerKey,
    client_key: &ClientKey,
) -> (r: Trial)
    requires
        key_pair(*client_key, *server_key),
        blocks@.len() == number_of_outputs,
    ensures
        r.encrypted.len() == blocks@.len(),
        r.expected.len() == blocks@.len(),
        r.decrypted.len() == blocks@.len(),
        forall|i: int|
            0 <= i < blocks@.len() ==> (#[trigger] r.encrypted[i])@ == aes::transpose(
                aes::ofb_block(aes::schedule(key@), aes::transpose(iv@), matrices_of(blocks@), i as nat),
            ),
        forall|i: int|
            0 <= i < blocks@.len() ==> (#[trigger] r.expected[i])@ == aes::add_round_key(
                blocks@[i]@,
                clear_ofb_stream(key@, iv@, i as nat),
            ),
        forall|i: int| 0 <= i < blocks@.len() ==> (#[trigger] r.decrypted[i])@ == blocks@[i]@,
{
    let expected = ofb_encrypt_clear(blocks, key, iv);
    let keys = key_expansion(key, key_expansion_offline, server_key, client_key);
    let iv_state = State::from_u8_enc(iv, client_key);
    let ofb = OFB::new(keys.as_slice(), &iv_state, number_of_outputs);
    let mut states = encrypt_blocks(blocks, client_key);
    let ghost plain = states@;
    let ghost schedule = aes::schedule(key@);
    let ghost first = aes::transpose(iv@);
    proof {
        lemma_expanded_schedule(*client_key, keys@, key@);
        assert(keys_valid(*server_key, keys@));
        lemma_same_state(ofb.initial(), iv_state);
        assert(iv_state.valid(*server_key));
        aes::lemma_transpose_twice(iv_state.cells(*client_key));
        lemma_cells_of_blocks(*client_key, plain, blocks@);
        assert(states_valid(*server_key, states@));
    }
    ofb.encrypt(states.as_mut_slice(), server_key);
    let ghost crypt = states@;
    proof {
        lemma_states_open(*client_key, *server_key, states@);
    }
    let encrypted = decrypt_blocks(&states, client_key);
    ofb.decrypt(states.as_mut_slice(), server_key);
    proof {
        lemma_states_open(*client_key, *server_key, states@);
        assert forall|i: int| 0 <= i < blocks@.len() implies (#[trigger] states@[i]).block(*client_key)
            == blocks@[i]@ by {
            assert(key_pair(*client_key, *server_key));
            let crypt_cells = cells_of(*client_key, crypt);
            assert(crypt[i].cells(*client_key) == aes::ofb_block(schedule, first, matrices_of(blocks@), i as nat));
            assert(crypt_cells[i] == crypt[i].cells(*client_key));
            aes::lemma_transpose_twice(blocks@[i]@);
            aes::lemma_ofb_round_trip(schedule, first, matrices_of(blocks@), crypt_cells, i as nat);
            assert(states@[i].cells(*client_key) == aes::ofb_block(schedule, first, crypt_cells, i as nat));
        }
    }
    let decrypted = decrypt_blocks(&states, client_key);
    Trial { encrypted, expected, decrypted }
}


/// The matrices of the first `n` counter blocks under the nonce of `iv`.
pub open spec fn counter_matrices(iv: Seq<u8>, n: nat) -> Seq<Seq<u8>> {
    Seq::new(n, |i: int| aes::transpose(counter_block(iv, i as nat)))
}

/// Block `i` of what a mode makes of a row of blocks with AES-128 under
/// `key`, as this library defines the cipher; counter mode counts from zero
/// under the nonce of `iv`.
pub open spec fn mode_block(mode: Mode, key: Seq<u8>, iv: Seq<u8>, blocks: Seq<[u8; 16]>, i: nat) -> Seq<u8> {
    match mode {
        Mode::ECB => aes::encrypt_block(key, blocks[i as int]@),
        Mode::CBC => aes::transpose(
            aes::cbc_cipher_block(aes::schedule(key), aes::transpose(iv), matrices_of(blocks), i),
        ),
        Mode::CTR => aes::transpose(
            aes::ctr_block(aes::schedule(key), counter_matrices(iv, blocks.len()), matrices_of(blocks), i),
        ),
        Mode::OFB => aes::transpose(
            aes::ofb_block(aes::schedule(key), aes::transpose(iv), matrices_of(blocks), i),
        ),
    }
}

/// Block `i` of what a mode makes of a row of blocks in the clear, with the
/// block cipher of the `aes` crate.
pub open spec fn clear_mode_block(mode: Mode, key: Seq<u8>, iv: Seq<u8>, blocks: Seq<[u8; 16]>, i: nat) -> Seq<
    u8,
> {
    match mode {
        Mode::ECB => aes128_block(key, blocks[i as int]@),
        Mode::CBC => clear_cbc_block(key, iv, blocks, i),
        Mode::CTR => aes::add_round_key(aes128_block(key, counter_block(iv, i)), blocks[i as int]@),
        Mode::OFB => aes::add_round_key(blocks[i as int]@, clear_ofb_stream(key, iv, i)),
    }
}

/// A trial of `mode` under a fresh pair of keys: the blocks are encrypted,
/// run through the mode on ciphertexts and decrypted, run back and decrypted
/// again; beside that the mode is run in the clear. There is no trial for
/// more than 255 blocks, nor for cipher block chaining without a block.
/// Whatever keys were generated, the blocks that the mode made on ciphertexts
/// are those of the mode with AES-128, and running back gave every block of
/// the start.
pub fn run(mode: Mode, key: &[u8; 16], iv: &[u8; 16], blocks: &[[u8; 16]], key_expansion_offline: bool) -> (r:
    Option<Trial>)
    ensures
        r is Some == (blocks@.len() <= 255 && (mode == Mode::CBC ==> blocks@.len() >= 1)),
        match r {
            Some(trial) => {
                &&& trial.encrypted.len() == blocks@.len()
                &&& trial.expected.len() == blocks@.len()
                &&& trial.decrypted.len() == blocks@.len()
                &&& forall|i: int|
                    0 <= i < blocks@.len() ==> (#[trigger] trial.encrypted[i])@ == mode_block(
                        mode,
                        key@,
                        iv@,
                        blocks@,
                        i as nat,
                    )
                &&& forall|i: int|
                    0 <= i < blocks@.len() ==> (#[trigger] trial.expected[i])@ == clear_mode_block(
                        mode,
                        key@,
                        iv@,
                        blocks@,
                        i as nat,
                    )
                &&& forall|i: int| 0 <= i < blocks@.len() ==> (#[trigger] trial.decrypted[i])@ == blocks@[i]@
            },
            None => true,
        },
{
    if blocks.len() > 255 {
        return None;
    }
    let number_of_outputs: u8 = blocks.len() as u8;
    let chained = match mode {
        Mode::CBC => true,
        _ => false,
    };
    if chained && number_of_outputs == 0 {
        return None;
    }
    let (client_key, server_key) = generate_keys();
    match mode {
        Mode::ECB => Some(test_ecb(key, blocks, key_expansion_offline, &server_key, &client_key)),
        Mode::CBC => Some(
            test_cbc(key, iv, blocks, key_expansion_offline, number_of_outputs, &server_key, &client_key),
        ),
        Mode::CTR => {
            let counters = generate_counters(iv, number_of_outputs);
            proof {
                assert(matrices_of(counters@) =~= counter_matrices(iv@, blocks@.len()));
            }
            Some(
                test_ctr(
                    key,
                    counters.as_slice(),
                    blocks,
                    key_expansion_offline,
                    number_of_outputs,
                    &server_key,
                    &client_key,
                ),
            )
        },
        Mode::OFB => Some(
            test_ofb(key, iv, blocks, key_expansion_offline, number_of_outputs, &server_key, &client_key),
        ),
    }
}

} // verus!
