//! Cipher block chaining over encrypted blocks.

use crate::aes;
use crate::gates::key_pair;
use crate::key_schedule::Key;
use crate::modes::ecb::{keys_valid, schedule_of, ECB};
use crate::state::{cells_of, lemma_same_state, states_valid, State};
use tfhe::boolean::client_key::ClientKey;
use tfhe::boolean::server_key::ServerKey;
use vstd::prelude::*;

verus! {

/// Cipher block chaining with AES-128: a cipher, an initial vector and the
/// number of blocks to process.
pub struct CBC {
    ecb: ECB,
    iv: State,
    n: u8,
}

impl CBC {
    /// The cipher.
    pub closed spec fn cipher(&self) -> ECB {
        self.ecb
    }

    /// The initial vector.
    pub closed spec fn initial(&self) -> State {
        self.iv
    }

    /// The number of blocks that the mode was made for.
    pub closed spec fn count(&self) -> nat {
        self.n as nat
    }

    /// The number of blocks that `encrypt` and `decrypt` process: the first
    /// block is processed even where the count is zero.
    pub open spec fn processed(&self) -> nat {
        if self.count() == 0 {
            1
        } else {
            self.count()
        }
    }

    /// The cipher and the initial vector are valid for `sk`.
    pub open spec fn valid(&self, sk: ServerKey) -> bool {
        self.cipher().valid(sk) && self.initial().valid(sk)
    }

    /// Keeps a copy of the round keys and of the initial vector.
    pub fn new(keys: &[Key], iv: &State, n: u8) -> (r: Self)
        ensures
            r.count() == n,
            r.cipher().tables().wf(),
            r.cipher().key_seq().len() == keys@.len(),
            r.initial().same_as(*iv),
            forall|sk: ServerKey| keys_valid(sk, keys@) ==> #[trigger] keys_valid(sk, r.cipher().key_seq()),
            forall|ck: ClientKey| #[trigger] r.cipher().schedule(ck) == schedule_of(ck, keys@),
    {
        CBC { ecb: ECB::new(keys), iv: iv.clone(), n }
    }

    /// Encrypts the first blocks of `plaintext` in place, one after the
    /// other: every block is added to the ciphertext block before it, the
    /// first to the initial vector, and goes through the cipher.
    pub fn encrypt(&self, plaintext: &mut [State], server_key: &ServerKey)
        requires
            self.valid(*server_key),
            old(plaintext)@.len() >= self.processed(),
            states_valid(*server_key, old(plaintext)@),
        ensures
            final(plaintext)@.len() == old(plaintext)@.len(),
            states_valid(*server_key, final(plaintext)@),
            forall|ck: ClientKey, i: int|
                #![trigger key_pair(ck, *server_key), final(plaintext)@[i]]
                key_pair(ck, *server_key) && 0 <= i < self.processed() ==> final(plaintext)@[i].cells(ck)
                    == aes::cbc_cipher_block(
                    self.cipher().schedule(ck),
                    self.initial().cells(ck),
                    cells_of(ck, old(plaintext)@),
                    i as nat,
                ),
            forall|i: int| self.processed() <= i < old(plaintext)@.len() ==> final(plaintext)@[i] == old(plaintext)@[i],
    {
        let count: usize = if self.n == 0 { 1 } else { self.n as usize };
        let mut i: usize = 0;
        while i < count
            invariant
                i <= count,
                count == self.processed(),
                self.valid(*server_key),
                plaintext@.len() == old(plaintext)@.len(),
                plaintext@.len() >= count,
                states_valid(*server_key, plaintext@),
                forall|ck: ClientKey, j: int|
                    #![trigger key_pair(ck, *server_key), plaintext@[j]]
                    key_pair(ck, *server_key) && 0 <= j < i ==> plaintext@[j].cells(ck) == aes::cbc_cipher_block(
                        self.cipher().schedule(ck),
                        self.initial().cells(ck),
                        cells_of(ck, old(plaintext)@),
                        j as nat,
                    ),
                forall|j: int| i <= j < plaintext.len() ==> plaintext@[j] == old(plaintext)@[j],
            decreases count - i,
        {
            let chained = if i == 0 {
                self.iv.clone()
            } else {
                plaintext[i - 1].clone()
            };
            proof {
                if i == 0 {
                    lemma_same_state(chained, self.iv);
                } else {
                    lemma_same_state(chained, plaintext@[i - 1]);
                }
                assert(plaintext@[i as int].valid(*server_key));
            }
            let ghost before = plaintext@;
            let mut block = plaintext[i].clone();
            proof {
                lemma_same_state(block, plaintext@[i as int]);
            }
            block.xor_state(&chained, server_key);
            self.ecb.encrypt(&mut block, server_key);
            plaintext[i] = block;
            proof {
                assert forall|ck: ClientKey, j: int|
                    #![trigger key_pair(ck, *server_key), plaintext@[j]]
                    key_pair(ck, *server_key) && 0 <= j < i + 1 implies plaintext@[j].cells(ck)
                    == aes::cbc_cipher_block(
                    self.cipher().schedule(ck),
                    self.initial().cells(ck),
                    cells_of(ck, old(plaintext)@),
                    j as nat,
                ) by {
                    if j < i {
                        assert(plaintext@[j] == before[j]);
                    } else {
                        assert(cells_of(ck, old(plaintext)@)[j] == old(plaintext)@[j].cells(ck));
                        if i > 0 {
                            assert(before[i - 1].cells(ck) == aes::cbc_cipher_block(
                                self.cipher().schedule(ck),
                                self.initial().cells(ck),
                                cells_of(ck, old(plaintext)@),
                                (i - 1) as nat,
                            ));
                        }
                    }
                }
                assert forall|j: int| 0 <= j < plaintext.len() implies (#[trigger] plaintext@[j]).valid(
                    *server_key,
                ) by {
                    if j != i {
                        assert(plaintext@[j] == before[j]);
                    }
                }
            }
            i += 1;
        }
    }

    /// Decrypts the first blocks of `ciphertexts` in place, from the last to
    /// the first: every block goes through the inverse cipher and is added
    /// to the ciphertext block before it, the first to the initial vector.
    pub fn decrypt(&self, ciphertexts: &mut [State], server_key: &ServerKey)
        requires
            self.valid(*server_key),
            old(ciphertexts)@.len() >= self.processed(),
            states_valid(*server_key, old(ciphertexts)@),
        ensures
            final(ciphertexts)@.len() == old(ciphertexts)@.len(),
            states_valid(*server_key, final(ciphertexts)@),
            forall|ck: ClientKey, i: int|
                #![trigger key_pair(ck, *server_key), final(ciphertexts)@[i]]
                key_pair(ck, *server_key) && 0 <= i < self.processed() ==> final(ciphertexts)@[i].cells(ck)
                    == aes::cbc_plain_block(
                    self.cipher().schedule(ck),
                    self.initial().cells(ck),
                    cells_of(ck, old(ciphertexts)@),
                    i as nat,
                ),
            forall|i: int|
                self.processed() <= i < old(ciphertexts)@.len() ==> final(ciphertexts)@[i] == old(ciphertexts)@[i],
    {
        let count: usize = if self.n == 0 { 1 } else { self.n as usize };
        let mut i: usize = count;
        while i > 0
            invariant
                i <= count,
                count == self.processed(),
                self.valid(*server_key),
                ciphertexts@.len() == old(ciphertexts)@.len(),
                ciphertexts@.len() >= count,
                states_valid(*server_key, ciphertexts@),
                forall|ck: ClientKey, j: int|
                    #![trigger key_pair(ck, *server_key), ciphertexts@[j]]
                    key_pair(ck, *server_key) && i <= j < count ==> ciphertexts@[j].cells(ck) == aes::cbc_plain_block(
                        self.cipher().schedule(ck),
                        self.initial().cells(ck),
                        cells_of(ck, old(ciphertexts)@),
                        j as nat,
                    ),
                forall|j: int| 0 <= j < i ==> ciphertexts@[j] == old(ciphertexts)@[j],
                forall|j: int| count <= j < ciphertexts.len() ==> ciphertexts@[j] == old(ciphertexts)@[j],
            decreases i,
        {
            i -= 1;
            let chained = if i == 0 {
                self.iv.clone()
            } else {
                ciphertexts[i - 1].clone()
            };
            proof {
                if i == 0 {
                    lemma_same_state(chained, self.iv);
                } else {
                    lemma_same_state(chained, ciphertexts@[i - 1]);
                }
                assert(ciphertexts@[i as int].valid(*server_key));
            }
            let ghost before = ciphertexts@;
            let mut block = ciphertexts[i].clone();
            proof {
                lemma_same_state(block, ciphertexts@[i as int]);
            }
            self.ecb.decrypt(&mut block, server_key);
            block.xor_state(&chained, server_key);
            ciphertexts[i] = block;
            proof {
                assert forall|ck: ClientKey, j: int|
                    #![trigger key_pair(ck, *server_key), ciphertexts@[j]]
                    key_pair(ck, *server_key) && i <= j < count implies ciphertexts@[j].cells(ck)
                    == aes::cbc_plain_block(
                    self.cipher().schedule(ck),
                    self.initial().cells(ck),
                    cells_of(ck, old(ciphertexts)@),
                    j as nat,
                ) by {
                    if j > i {
                        assert(ciphertexts@[j] == before[j]);
                    } else {
                        assert(cells_of(ck, old(ciphertexts)@)[j] == old(ciphertexts)@[j].cells(ck));
                        if i > 0 {
                            assert(cells_of(ck, old(ciphertexts)@)[i - 1] == old(ciphertexts)@[i - 1].cells(ck));
                        }
                    }
                }
                assert forall|j: int| 0 <= j < ciphertexts.len() implies (#[trigger] ciphertexts@[j]).valid(
                    *server_key,
                ) by {
                    if j != i {
                        assert(ciphertexts@[j] == before[j]);
                    }
                }
            }
        }
    }
}

} // verus!
