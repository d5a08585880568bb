//! Counter mode over encrypted blocks. The counters are made and encrypted
//! by the caller: nothing is counted on encrypted data.

use crate::aes;
use crate::gates::key_pair;
use crate::key_schedule::Key;
use crate::modes::ecb::{keys_valid, schedule_of, ECB};
use crate::state::{cells_of, lemma_same_state, states_valid, State};
use rayon::iter::{IndexedParallelIterator, IntoParallelRefIterator, IntoParallelRefMutIterator, ParallelIterator};
use tfhe::boolean::client_key::ClientKey;
use tfhe::boolean::server_key::ServerKey;
use vstd::prelude::*;

verus! {

/// Encrypts every block of a row with the cipher, on rayon's worker pool:
/// `par_iter_mut().for_each(..)`, with `ECB::encrypt` as the function. rayon
/// runs the function once on every item, each in its place.
#[verifier::external_body]
fn encrypt_all(ecb: &ECB, blocks: &mut Vec<State>, server_key: &ServerKey)
    requires
        ecb.valid(*server_key),
        states_valid(*server_key, old(blocks)@),
    ensures
        final(blocks).len() == old(blocks).len(),
        states_valid(*server_key, final(blocks)@),
        forall|ck: ClientKey, i: int|
            #![trigger key_pair(ck, *server_key), final(blocks)@[i]]
            key_pair(ck, *server_key) && 0 <= i < old(blocks).len() ==> final(blocks)@[i].cells(ck) == aes::cipher(
                ecb.schedule(ck),
                old(blocks)@[i].cells(ck),
            ),
{
    blocks.par_iter_mut().for_each(|x| ecb.encrypt(x, server_key));
}

/// Adds to every block of `left` the block of `right` at the same place, on
/// rayon's worker pool: `par_iter_mut().zip(..).for_each(..)`, with
/// `State::xor_state` as the function. rayon pairs the items by position up
/// to the end of the shorter row and runs the function once on every pair;
/// what `left` holds behind that end is not touched.
#[verifier::external_body]
fn xor_states(left: &mut [State], right: &Vec<State>, server_key: &ServerKey)
    requires
        forall|i: int| 0 <= i < old(left)@.len() && i < right.len() ==> (#[trigger] old(left)@[i]).valid(*server_key),
        forall|i: int| 0 <= i < old(left)@.len() && i < right.len() ==> (#[trigger] right@[i]).valid(*server_key),
    ensures
        final(left)@.len() == old(left)@.len(),
        forall|i: int| 0 <= i < old(left)@.len() && i < right.len() ==> (#[trigger] final(left)@[i]).valid(*server_key),
        forall|ck: ClientKey, i: int|
            #![trigger key_pair(ck, *server_key), final(left)@[i]]
            key_pair(ck, *server_key) && 0 <= i < old(left)@.len() && i < right.len() ==> final(left)@[i].cells(ck)
                == aes::add_round_key(old(left)@[i].cells(ck), right@[i].cells(ck)),
        forall|i: int| right.len() <= i < old(left)@.len() ==> final(left)@[i] == old(left)@[i],
{
    left.par_iter_mut().zip(right.par_iter()).for_each(|(x, y)| x.xor_state(y, server_key));
}

/// Counter mode with AES-128: a cipher and one encrypted counter for every
/// block.
pub struct CTR {
    ecb: ECB,
    counters: Vec<State>,
}

impl CTR {
    /// The cipher.
    pub closed spec fn cipher(&self) -> ECB {
        self.ecb
    }

    /// The encrypted counters.
    pub closed spec fn counter_seq(&self) -> Seq<State> {
        self.counters@
    }

    /// The cipher and the counters are valid for `sk`.
    pub open spec fn valid(&self, sk: ServerKey) -> bool {
        self.cipher().valid(sk) && states_valid(sk, self.counter_seq())
    }

    /// Keeps a copy of the round keys and of the `n` counters.
    pub fn new(keys: &[Key], counters: &[State], n: u8) -> (r: Self)
        requires
            counters@.len() == n,
        ensures
            r.cipher().tables().wf(),
            r.cipher().key_seq().len() == keys@.len(),
            r.counter_seq().len() == n,
            forall|i: int| 0 <= i < n ==> (#[trigger] r.counter_seq()[i]).same_as(counters@[i]),
            forall|sk: ServerKey| keys_valid(sk, keys@) ==> #[trigger] keys_valid(sk, r.cipher().key_seq()),
            forall|ck: ClientKey| #[trigger] r.cipher().schedule(ck) == schedule_of(ck, keys@),
    {
        CTR { ecb: ECB::new(keys), counters: copy_states(counters) }
    }

    /// Adds to every block of `plaintext` the cipher of its counter, in
    /// place; the counters go through the cipher in parallel, and so do the
    /// additions. Blocks without a counter are left as they are.
    pub fn encrypt(&self, plaintext: &mut [State], server_key: &ServerKey)
        requires
            self.valid(*server_key),
            states_valid(*server_key, old(plaintext)@),
        ensures
            final(plaintext)@.len() == old(plaintext)@.len(),
            states_valid(*server_key, final(plaintext)@),
            forall|ck: ClientKey, i: int|
                #![trigger key_pair(ck, *server_key), final(plaintext)@[i]]
                key_pair(ck, *server_key) && 0 <= i < old(plaintext)@.len() && i < self.counter_seq().len() ==> final(plaintext)@[i].cells(ck)
                    == aes::ctr_block(
                    self.cipher().schedule(ck),
                    cells_of(ck, self.counter_seq()),
                    cells_of(ck, old(plaintext)@),
                    i as nat,
                ),
            forall|i: int|
                self.counter_seq().len() <= i < old(plaintext)@.len() ==> final(plaintext)@[i] == old(plaintext)@[i],
    {
        let mut enc_counters = copy_states(self.counters.as_slice());
        proof {
            assert forall|i: int| 0 <= i < enc_counters.len() implies (#[trigger] enc_counters@[i]).valid(
                *server_key,
            ) by {
                lemma_same_state(enc_counters@[i], self.counters@[i]);
                assert(self.counters@[i].valid(*server_key));
            }
        }
        let ghost copies = enc_counters@;
        encrypt_all(&self.ecb, &mut enc_counters, server_key);
        let ghost before = plaintext@;
        xor_states(plaintext, &enc_counters, server_key);
        proof {
            assert forall|ck: ClientKey, i: int|
                #![trigger key_pair(ck, *server_key), plaintext@[i]]
                key_pair(ck, *server_key) && 0 <= i < before.len() && i < self.counter_seq().len() implies plaintext@[i].cells(
                ck,
            ) == aes::ctr_block(
                self.cipher().schedule(ck),
                cells_of(ck, self.counter_seq()),
                cells_of(ck, before),
                i as nat,
            ) by {
                lemma_same_state(copies[i], self.counters@[i]);
                assert(enc_counters@[i].cells(ck) == aes::cipher(self.cipher().schedule(ck), copies[i].cells(ck)));
                assert(cells_of(ck, self.counter_seq())[i] == self.counters@[i].cells(ck));
                assert(cells_of(ck, before)[i] == before[i].cells(ck));
            }
            assert forall|i: int| 0 <= i < plaintext.len() implies (#[trigger] plaintext@[i]).valid(*server_key) by {
                if i >= enc_counters.len() {
                    assert(plaintext@[i] == before[i]);
                }
            }
        }
    }

    /// Removes from every block of `ciphertexts` the cipher of its counter,
    /// in place: the same map as `encrypt`.
    pub fn decrypt(&self, ciphertexts: &mut [State], server_key: &ServerKey)
        requires
            self.valid(*server_key),
            states_valid(*server_key, old(ciphertexts)@),
        ensures
            final(ciphertexts)@.len() == old(ciphertexts)@.len(),
            states_valid(*server_key, final(ciphertexts)@),
            forall|ck: ClientKey, i: int|
                #![trigger key_pair(ck, *server_key), final(ciphertexts)@[i]]
                key_pair(ck, *server_key) && 0 <= i < old(ciphertexts)@.len() && i < self.counter_seq().len() ==> final(ciphertexts)@[i].cells(ck)
                    == aes::ctr_block(
                    self.cipher().schedule(ck),
                    cells_of(ck, self.counter_seq()),
                    cells_of(ck, old(ciphertexts)@),
                    i as nat,
                ),
            forall|i: int|
                self.counter_seq().len() <= i < old(ciphertexts)@.len() ==> final(ciphertexts)@[i]
                    == old(ciphertexts)@[i],
    {
        self.encrypt(ciphertexts, server_key);
    }
}

/// A copy of every state of a row.
pub fn copy_states(states: &[State]) -> (out: Vec<State>)
    ensures
        out.len() == states@.len(),
        forall|i: int| 0 <= i < out.len() ==> (#[trigger] out@[i]).same_as(states@[i]),
{
    let mut out: Vec<State> = Vec::with_capacity(states.len());
    let mut i: usize = 0;
    while i < states.len()
        invariant
            i <= states.len(),
            out.len() == i,
            forall|j: int| 0 <= j < i ==> (#[trigger] out@[j]).same_as(states@[j]),
        decreases states.len() - i,
    {
        out.push(states[i].clone());
        i += 1;
    }
    out
}

} // verus!
