//! Electronic codebook: the AES-128 cipher on one encrypted block.

use crate::aes;
use crate::gates::key_pair;
use crate::key_schedule::Key;
use crate::sbox::SBoxTables;
use crate::state::State;
use tfhe::boolean::client_key::ClientKey;
use tfhe::boolean::server_key::ServerKey;
use vstd::prelude::*;

verus! {

/// The matrices that `ck` decrypts a row of round keys to.
pub open spec fn schedule_of(ck: ClientKey, keys: Seq<Key>) -> Seq<Seq<u8>> {
    Seq::new(keys.len(), |r: int| keys[r].cells(ck))
}

/// The gates of `sk` accept every round key of the row.
pub open spec fn keys_valid(sk: ServerKey, keys: Seq<Key>) -> bool {
    forall|r: int| 0 <= r < keys.len() ==> (#[trigger] keys[r]).valid(sk)
}

/// The AES-128 cipher with its round keys and its compiled S-boxes.
pub struct ECB {
    keys: Vec<Key>,
    tables: SBoxTables,
}

impl ECB {
    /// The round keys.
    pub closed spec fn key_seq(&self) -> Seq<Key> {
        self.keys@
    }

    /// The compiled S-boxes.
    pub closed spec fn tables(&self) -> SBoxTables {
        self.tables
    }

    /// There are the eleven round keys, the gates of `sk` accept them, and
    /// the S-boxes are compiled.
    pub open spec fn valid(&self, sk: ServerKey) -> bool {
        self.key_seq().len() >= 11 && keys_valid(sk, self.key_seq()) && self.tables().wf()
    }

    /// The round keys that `ck` decrypts to, each as a matrix.
    pub open spec fn schedule(&self, ck: ClientKey) -> Seq<Seq<u8>> {
        schedule_of(ck, self.key_seq())
    }

    /// Keeps a copy of the round keys and compiles the S-boxes.
    pub fn new(keys: &[Key]) -> (r: Self)
        ensures
            r.tables().wf(),
            r.key_seq().len() == keys@.len(),
            forall|sk: ServerKey| keys_valid(sk, keys@) ==> #[trigger] keys_valid(sk, r.key_seq()),
            forall|ck: ClientKey| #[trigger] r.schedule(ck) == schedule_of(ck, keys@),
    {
        let mut copy: Vec<Key> = Vec::with_capacity(keys.len());
        let mut i: usize = 0;
        while i < keys.len()
            invariant
                i <= keys.len(),
                copy.len() == i,
                forall|j: int|
                    0 <= j < i ==> (#[trigger] copy[j]).data@.len() == keys[j].data@.len() && forall|t: int|
                        0 <= t < copy[j].data@.len() ==> (#[trigger] copy[j].data@[t]).bits()
                            == keys[j].data@[t].bits(),
            decreases keys.len() - i,
        {
            copy.push(keys[i].clone());
            i += 1;
        }
        let r = ECB { keys: copy, tables: SBoxTables::new() };
        proof {
            assert forall|sk: ServerKey| keys_valid(sk, keys@) implies #[trigger] keys_valid(sk, r.key_seq()) by {
                assert forall|j: int| 0 <= j < r.key_seq().len() implies (#[trigger] r.key_seq()[j]).valid(sk) by {
                    assert(keys@[j].valid(sk));
                    assert forall|t: int| 0 <= t < 16 implies (#[trigger] r.key_seq()[j].data@[t]).valid(sk) by {
                        assert(keys@[j].data@[t].valid(sk));
                    }
                }
            }
            assert forall|ck: ClientKey| #[trigger] r.schedule(ck) == schedule_of(ck, keys@) by {
                assert forall|j: int| 0 <= j < keys@.len() implies r.key_seq()[j].cells(ck) == keys@[j].cells(ck) by {
                    assert(r.key_seq()[j].cells(ck) =~= keys@[j].cells(ck));
                }
                assert(r.schedule(ck) =~= schedule_of(ck, keys@));
            }
        }
        r
    }

    /// Encrypts one block in place: AddRoundKey; nine rounds of SubBytes,
    /// ShiftRows, MixColumns and AddRoundKey; a last round without MixColumns.
    pub fn encrypt(&self, state: &mut State, server_key: &ServerKey)
        requires
            self.valid(*server_key),
            old(state).valid(*server_key),
        ensures
            final(state).valid(*server_key),
            forall|ck: ClientKey| #[trigger]
                key_pair(ck, *server_key) ==> final(state).cells(ck) == aes::cipher(
                    self.schedule(ck),
                    old(state).cells(ck),
                ),
    {
        state.xor_key_enc(&self.keys[0], server_key);
        let mut round: usize = 1;
        while round < 10
            invariant
                1 <= round <= 10,
                self.valid(*server_key),
                state.valid(*server_key),
                forall|ck: ClientKey| #[trigger]
                    key_pair(ck, *server_key) ==> state.cells(ck) == aes::cipher_state(
                        self.schedule(ck),
                        old(state).cells(ck),
                        (round - 1) as nat,
                    ),
            decreases 10 - round,
        {
            state.sub_bytes_with(&self.tables, server_key);
            state.shift_rows();
            state.mix_columns(server_key);
            state.xor_key_enc(&self.keys[round], server_key);
            round += 1;
        }
        state.sub_bytes_with(&self.tables, server_key);
        state.shift_rows();
        state.xor_key_enc(&self.keys[10], server_key);
    }

    /// Decrypts one block in place: the rounds of `encrypt` undone from the
    /// last to the first.
    pub fn decrypt(&self, state: &mut State, server_key: &ServerKey)
        requires
            self.valid(*server_key),
            old(state).valid(*server_key),
        ensures
            final(state).valid(*server_key),
            forall|ck: ClientKey| #[trigger]
                key_pair(ck, *server_key) ==> final(state).cells(ck) == aes::inv_cipher(
                    self.schedule(ck),
                    old(state).cells(ck),
                ),
    {
        state.xor_key_enc(&self.keys[10], server_key);
        let mut round: usize = 1;
        while round < 10
            invariant
                1 <= round <= 10,
                self.valid(*server_key),
                state.valid(*server_key),
                forall|ck: ClientKey| #[trigger]
                    key_pair(ck, *server_key) ==> state.cells(ck) == aes::inv_cipher_state(
                        self.schedule(ck),
                        old(state).cells(ck),
                        (round - 1) as nat,
                    ),
            decreases 10 - round,
        {
            state.inv_shift_rows();
            state.inv_sub_bytes_with(&self.tables, server_key);
            state.xor_key_enc(&self.keys[10 - round], server_key);
            state.inv_mix_columns(server_key);
            round += 1;
        }
        state.inv_shift_rows();
        state.inv_sub_bytes_with(&self.tables, server_key);
        state.xor_key_enc(&self.keys[0], server_key);
    }
}

} // verus!
