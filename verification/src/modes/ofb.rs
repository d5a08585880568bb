//! Output feedback over encrypted blocks.

use crate::aes;
use crate::gates::key_pair;
use crate::key_schedule::Key;
use crate::modes::ecb::{keys_valid, schedule_of, ECB};
use crate::state::{cells_of, lemma_same_state, states_valid, State};
use tfhe::boolean::client_key::ClientKey;
use tfhe::boolean::server_key::ServerKey;
use vstd::prelude::*;

verus! {

/// Output feedback with AES-128: a cipher, an initial vector and the number
/// of blocks to process.
pub struct OFB {
    ecb: ECB,
    iv: State,
    n: u8,
}

impl OFB {
    /// The cipher.
    pub closed spec fn cipher(&self) -> ECB {
        self.ecb
    }

    /// The initial vector.
    pub closed spec fn initial(&self) -> State {
        self.iv
    }

    /// The number of blocks that `encrypt` and `decrypt` process.
    pub closed spec fn count(&self) -> nat {
        self.n as nat
    }

    /// The cipher and the initial vector are valid for `sk`.
    pub open spec fn valid(&self, sk: ServerKey) -> bool {
        self.cipher().valid(sk) && self.initial().valid(sk)
    }

    /// Keeps a copy of the round keys and of the initial vector.
    pub fn new(keys: &[Key], iv: &State, n: u8) -> (r: Self)
        ensures
            r.count() == n,
            r.cipher().tables().wf(),
            r.cipher().key_seq().len() == keys@.len(),
            r.initial().same_as(*iv),
            forall|sk: ServerKey| keys_valid(sk, keys@) ==> #[trigger] keys_valid(sk, r.cipher().key_seq()),
            forall|ck: ClientKey| #[trigger] r.cipher().schedule(ck) == schedule_of(ck, keys@),
    {
        OFB { ecb: ECB::new(keys), iv: iv.clone(), n }
    }

    /// Adds the key stream to the first blocks of `plaintext`, in place: the
    /// cipher is applied to the initial vector again and again, and every
    /// output is added to one block.
    pub fn encrypt(&self, plaintext: &mut [State], server_key: &ServerKey)
        requires
            self.valid(*server_key),
            old(plaintext)@.len() >= self.count(),
            states_valid(*server_key, old(plaintext)@),
        ensures
            final(plaintext)@.len() == old(plaintext)@.len(),
            states_valid(*server_key, final(plaintext)@),
            forall|ck: ClientKey, i: int|
                #![trigger key_pair(ck, *server_key), final(plaintext)@[i]]
                key_pair(ck, *server_key) && 0 <= i < self.count() ==> final(plaintext)@[i].cells(ck)
                    == aes::ofb_block(
                    self.cipher().schedule(ck),
                    self.initial().cells(ck),
                    cells_of(ck, old(plaintext)@),
                    i as nat,
                ),
            forall|i: int| self.count() <= i < old(plaintext)@.len() ==> final(plaintext)@[i] == old(plaintext)@[i],
    {
        let mut curr_state = self.iv.clone();
        proof {
            lemma_same_state(curr_state, self.iv);
        }
        let count: usize = self.n as usize;
        let mut i: usize = 0;
        while i < count
            invariant
                i <= count,
                count == self.count(),
                self.valid(*server_key),
                curr_state.valid(*server_key),
                plaintext@.len() == old(plaintext)@.len(),
                plaintext@.len() >= count,
                states_valid(*server_key, plaintext@),
                forall|ck: ClientKey| #[trigger]
                    key_pair(ck, *server_key) ==> curr_state.cells(ck) == (if i == 0 {
                        self.initial().cells(ck)
                    } else {
                        aes::ofb_stream(self.cipher().schedule(ck), self.initial().cells(ck), (i - 1) as nat)
                    }),
                forall|ck: ClientKey, j: int|
                    #![trigger key_pair(ck, *server_key), plaintext@[j]]
                    key_pair(ck, *server_key) && 0 <= j < i ==> plaintext@[j].cells(ck) == aes::ofb_block(
                        self.cipher().schedule(ck),
                        self.initial().cells(ck),
                        cells_of(ck, old(plaintext)@),
                        j as nat,
                    ),
                forall|j: int| i <= j < plaintext.len() ==> plaintext@[j] == old(plaintext)@[j],
            decreases count - i,
        {
            self.ecb.encrypt(&mut curr_state, server_key);
            let ghost before = plaintext@;
            let mut block = plaintext[i].clone();
            proof {
                assert(plaintext@[i as int].valid(*server_key));
                lemma_same_state(block, plaintext@[i as int]);
            }
            block.xor_state(&curr_state, server_key);
            plaintext[i] = block;
            proof {
                assert forall|ck: ClientKey, j: int|
                    #![trigger key_pair(ck, *server_key), plaintext@[j]]
                    key_pair(ck, *server_key) && 0 <= j < i + 1 implies plaintext@[j].cells(ck) == aes::ofb_block(
                    self.cipher().schedule(ck),
                    self.initial().cells(ck),
                    cells_of(ck, old(plaintext)@),
                    j as nat,
                ) by {
                    if j < i {
                        assert(plaintext@[j] == before[j]);
                    } else {
                        assert(cells_of(ck, old(plaintext)@)[j] == old(plaintext)@[j].cells(ck));
                    }
                }
                assert forall|j: int| 0 <= j < plaintext.len() implies (#[trigger] plaintext@[j]).valid(
                    *server_key,
                ) by {
                    if j != i {
                        assert(plaintext@[j] == before[j]);
                    }
                }
            }
            i += 1;
        }
    }

    /// Removes the key stream from the first blocks of `ciphertexts`, in
    /// place: the same map as `encrypt`.
    pub fn decrypt(&self, ciphertexts: &mut [State], server_key: &ServerKey)
        requires
            self.valid(*server_key),
            old(ciphertexts)@.len() >= self.count(),
            states_valid(*server_key, old(ciphertexts)@),
        ensures
            final(ciphertexts)@.len() == old(ciphertexts)@.len(),
            states_valid(*server_key, final(ciphertexts)@),
            forall|ck: ClientKey, i: int|
                #![trigger key_pair(ck, *server_key), final(ciphertexts)@[i]]
                key_pair(ck, *server_key) && 0 <= i < self.count() ==> final(ciphertexts)@[i].cells(ck)
                    == aes::ofb_block(
                    self.cipher().schedule(ck),
                    self.initial().cells(ck),
                    cells_of(ck, old(ciphertexts)@),
                    i as nat,
                ),
            forall|i: int|
                self.count() <= i < old(ciphertexts)@.len() ==> final(ciphertexts)@[i] == old(ciphertexts)@[i],
    {
        self.encrypt(ciphertexts, server_key);
    }
}

} // verus!
