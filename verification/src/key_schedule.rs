//! Round keys: the encrypted key matrix and the AES-128 key schedule, on
//! encrypted bytes and on plain ones.

use crate::aes;
use crate::gates::key_pair;
use crate::primitive::FHEByte;
use crate::sbox::{sbox, SBoxTables, S_BOX_DATA};
use crate::state::{
    all_valid, be_bytes, decrypt_bytes, encrypt_bytes, gather, sub_all, to_array, transposition, trivial_bytes,
    values, xor_all,
};
use tfhe::boolean::client_key::ClientKey;
use tfhe::boolean::server_key::ServerKey;
use vstd::prelude::*;

verus! {

/// The round constants of the AES-128 key schedule.
pub const RCON: [u8; 10] = [0x01, 0x02, 0x04, 0x08, 0x10, 0x20, 0x40, 0x80, 0x1B, 0x36];

/// One round key in encrypted form, stored row after row like a state.
pub struct Key {
    pub data: [FHEByte; 16],
}

impl Clone for Key {
    fn clone(&self) -> (r: Self)
        ensures
            r.data@.len() == self.data@.len(),
            forall|i: int| 0 <= i < r.data@.len() ==> (#[trigger] r.data@[i]).bits() == self.data@[i].bits(),
    {
        let mut data: Vec<FHEByte> = Vec::with_capacity(self.data.len());
        let mut i: usize = 0;
        while i < self.data.len()
            invariant
                i <= self.data.len(),
                data.len() == i,
                forall|j: int| 0 <= j < i ==> (#[trigger] data[j]).bits() == self.data[j].bits(),
            decreases self.data.len() - i,
        {
            data.push(self.data[i].clone());
            i += 1;
        }
        Key { data: to_array(data) }
    }
}

impl Key {
    /// The key has sixteen bytes, and the gates of `sk` accept them.
    pub open spec fn valid(&self, sk: ServerKey) -> bool {
        self.data@.len() == 16 && all_valid(sk, self.data@)
    }

    /// Some server key of `ck` accepts the key, so `ck` can decrypt it.
    pub open spec fn opens_with(&self, ck: ClientKey) -> bool {
        exists|sk: ServerKey| #[trigger] key_pair(ck, sk) && self.valid(sk)
    }

    /// The matrix that `ck` decrypts the key to, row after row.
    pub open spec fn cells(&self, ck: ClientKey) -> Seq<u8> {
        values(ck, self.data@)
    }

    /// The round key that `ck` decrypts the key to, as a block: column after
    /// column.
    pub open spec fn block(&self, ck: ClientKey) -> Seq<u8> {
        aes::transpose(self.cells(ck))
    }

    /// Encrypts the key that `value` spells, most significant byte first.
    pub fn from_u128_enc(value: u128, client_key: &ClientKey) -> (r: Self)
        ensures
            r.data@.len() == 16,
            aes::be_value(r.block(*client_key)) == value,
            forall|sk: ServerKey| #[trigger] key_pair(*client_key, sk) ==> r.valid(sk),
    {
        let bytes = be_bytes(value);
        Self::from_u8_enc(&bytes, client_key)
    }

    /// The trivial encryption of the key that `value` spells, most
    /// significant byte first.
    pub fn from_u128_clear(value: u128, server_key: &ServerKey) -> (r: Self)
        ensures
            r.valid(*server_key),
            forall|ck: ClientKey| aes::be_value(#[trigger] r.block(ck)) == value,
    {
        let bytes = be_bytes(value);
        Self::from_u8_clear(&bytes, server_key)
    }

    /// Encrypts a key of sixteen bytes.
    pub fn from_u8_enc(data: &[u8; 16], client_key: &ClientKey) -> (r: Self)
        ensures
            r.data@.len() == 16,
            r.block(*client_key) == data@,
            forall|sk: ServerKey| #[trigger] key_pair(*client_key, sk) ==> r.valid(sk),
    {
        let order = transposition();
        let r = Key { data: to_array(encrypt_bytes(data, &order, client_key)) };
        proof {
            assert(r.cells(*client_key) =~= aes::transpose(data@));
            aes::lemma_transpose_twice(data@);
        }
        r
    }

    /// The trivial encryption of a key of sixteen bytes.
    pub fn from_u8_clear(data: &[u8; 16], server_key: &ServerKey) -> (r: Self)
        ensures
            r.valid(*server_key),
            forall|ck: ClientKey| #[trigger] r.block(ck) == data@,
    {
        let order = transposition();
        let r = Key { data: to_array(trivial_bytes(data, &order, server_key)) };
        proof {
            assert forall|ck: ClientKey| #[trigger] r.block(ck) == data@ by {
                assert(r.cells(ck) =~= aes::transpose(data@));
                aes::lemma_transpose_twice(data@);
            }
        }
        r
    }

    /// Decrypts the round key.
    pub fn decrypt_to_u8(&self, client_key: &ClientKey) -> (r: [u8; 16])
        requires
            self.opens_with(*client_key),
        ensures
            r@ == self.block(*client_key),
    {
        let order = transposition();
        proof {
            let sk = choose|sk: ServerKey| #[trigger] key_pair(*client_key, sk) && self.valid(sk);
            assert(key_pair(*client_key, sk) && all_valid(sk, self.data@));
        }
        let r = decrypt_bytes(&self.data, &order, client_key);
        assert(r@ =~= self.block(*client_key));
        r
    }

    /// Replaces the round key by the next one of the schedule, through
    /// compiled tables: the last column goes through the S-box, turned by one
    /// byte and with the round constant added; every column is the old
    /// column plus the new column before it.
    #[verifier::rlimit(50)]
    pub fn generate_next_key_with(&mut self, rcon: &u8, tables: &SBoxTables, server_key: &ServerKey)
        requires
            old(self).valid(*server_key),
            tables.wf(),
        ensures
            final(self).valid(*server_key),
            forall|ck: ClientKey| #[trigger]
                key_pair(ck, *server_key) ==> final(self).block(ck) == aes::next_round_key(
                    old(self).block(ck),
                    *rcon,
                ),
    {
        let turned: Vec<usize> = vec![7, 11, 15, 3];
        let first: Vec<usize> = vec![0, 4, 8, 12];
        let second: Vec<usize> = vec![1, 5, 9, 13];
        let third: Vec<usize> = vec![2, 6, 10, 14];
        let fourth: Vec<usize> = vec![3, 7, 11, 15];
        let head: Vec<usize> = vec![0];
        let last = gather(&self.data, &turned);
        let word = sub_all(&last, tables, server_key);
        let constant: Vec<FHEByte> = vec![FHEByte::from_u8_clear(rcon, server_key)];
        let word_head = gather(&word, &head);
        let mut temp = xor_all(&word_head, &constant, server_key);
        let mut tail = gather(&word, &vec![1, 2, 3]);
        temp.append(&mut tail);
        let col0 = gather(&self.data, &first);
        let col1 = gather(&self.data, &second);
        let col2 = gather(&self.data, &third);
        let col3 = gather(&self.data, &fourth);
        let new0 = xor_all(&col0, &temp, server_key);
        let new1 = xor_all(&col1, &new0, server_key);
        let new2 = xor_all(&col2, &new1, server_key);
        let new3 = xor_all(&col3, &new2, server_key);
        let mut columns = gather(&new0, &vec![0, 1, 2, 3]);
        let mut part1 = gather(&new1, &vec![0, 1, 2, 3]);
        let mut part2 = gather(&new2, &vec![0, 1, 2, 3]);
        let mut part3 = gather(&new3, &vec![0, 1, 2, 3]);
        columns.append(&mut part1);
        columns.append(&mut part2);
        columns.append(&mut part3);
        let order = transposition();
        let out = gather(&columns, &order);
        proof {
            assert forall|i: int| 0 <= i < 16 implies (#[trigger] out[i]).valid(*server_key) by {
                assert(out[i].bits() == columns[order[i] as int].bits());
            }
            assert forall|ck: ClientKey| #[trigger] key_pair(ck, *server_key) implies aes::transpose(values(ck, out@))
                == aes::next_round_key(self.block(ck), *rcon) by {
                let b = self.block(ck);
                let m = self.cells(ck);
                let w = aes::schedule_word(b, *rcon);
                assert(word[0].value(ck) == sbox(last[0].value(ck)));
                assert(word[1].value(ck) == sbox(last[1].value(ck)));
                assert(word[2].value(ck) == sbox(last[2].value(ck)));
                assert(word[3].value(ck) == sbox(last[3].value(ck)));
                assert(temp[0].value(ck) == word_head[0].value(ck) ^ constant[0].value(ck));
                assert(temp[0].value(ck) == w[0]);
                assert(temp[1].value(ck) == w[1]);
                assert(temp[2].value(ck) == w[2]);
                assert(temp[3].value(ck) == w[3]);
                assert forall|r: int| 0 <= r < 4 implies new0[r].value(ck) == aes::next_key_byte(b, *rcon, r)
                    && new1[r].value(ck) == aes::next_key_byte(b, *rcon, 4 + r) && new2[r].value(ck)
                    == aes::next_key_byte(b, *rcon, 8 + r) && new3[r].value(ck) == aes::next_key_byte(
                    b,
                    *rcon,
                    12 + r,
                ) by {
                    assert(new0[r].value(ck) == col0[r].value(ck) ^ temp[r].value(ck));
                    assert(new1[r].value(ck) == col1[r].value(ck) ^ new0[r].value(ck));
                    assert(new2[r].value(ck) == col2[r].value(ck) ^ new1[r].value(ck));
                    assert(new3[r].value(ck) == col3[r].value(ck) ^ new2[r].value(ck));
                    assert(col0[r].value(ck) == m[first[r] as int]);
                    assert(col1[r].value(ck) == m[second[r] as int]);
                    assert(col2[r].value(ck) == m[third[r] as int]);
                    assert(col3[r].value(ck) == m[fourth[r] as int]);
                    reveal_with_fuel(aes::next_key_byte, 5);
                }
                assert forall|i: int| 0 <= i < 16 implies aes::transpose(values(ck, out@))[i]
                    == aes::next_round_key(b, *rcon)[i] by {
                    let r = i % 4;
                    let k = 4 * (i % 4) + i / 4;
                    assert(out[k].bits() == columns[order[k] as int].bits());
                    assert(order[k] == i);
                    assert(new0[r].value(ck) == aes::next_key_byte(b, *rcon, r));
                    if i < 4 {
                        assert(columns[i].bits() == new0[i].bits());
                    } else if i < 8 {
                        assert(columns[i].bits() == new1[i - 4].bits());
                    } else if i < 12 {
                        assert(columns[i].bits() == new2[i - 8].bits());
                    } else {
                        assert(columns[i].bits() == new3[i - 12].bits());
                    }
                }
                assert(aes::transpose(values(ck, out@)) =~= aes::next_round_key(b, *rcon));
            }
        }
        self.data = to_array(out);
    }

    /// Replaces the round key by the next one of the schedule. The S-box is
    /// compiled for this one call; `generate_next_key_with` shares compiled
    /// tables between calls.
    pub fn generate_next_key_in_place(&mut self, rcon: &u8, server_key: &ServerKey)
        requires
            old(self).valid(*server_key),
        ensures
            final(self).valid(*server_key),
            forall|ck: ClientKey| #[trigger]
                key_pair(ck, *server_key) ==> final(self).block(ck) == aes::next_round_key(
                    old(self).block(ck),
                    *rcon,
                ),
    {
        let tables = SBoxTables::new();
        self.generate_next_key_with(rcon, &tables, server_key);
    }
}


impl Key {
    /// The eleven round keys of AES-128, expanded on encrypted bytes from
    /// this key.
    pub fn generate_round_keys(&self, server_key: &ServerKey) -> (keys: [Key; 11])
        requires
            self.valid(*server_key),
        ensures
            forall|r: int| 0 <= r < 11 ==> (#[trigger] keys[r]).valid(*server_key),
            forall|ck: ClientKey, r: int|
                #![trigger key_pair(ck, *server_key), keys[r]]
                key_pair(ck, *server_key) && 0 <= r < 11 ==> keys[r].block(ck) == aes::round_key(
                    self.block(ck),
                    r as nat,
                ),
    {
        let tables = SBoxTables::new();
        let mut keys: Vec<Key> = Vec::with_capacity(11);
        keys.push(self.clone());
        proof {
            assert forall|ck: ClientKey| #[trigger] keys[0].block(ck) == self.block(ck) by {
                assert(keys[0].cells(ck) =~= self.cells(ck));
            }
        }
        let mut i: usize = 0;
        while i < 10
            invariant
                i <= 10,
                tables.wf(),
                keys.len() == i + 1,
                forall|r: int| 0 <= r <= i ==> (#[trigger] keys[r]).valid(*server_key),
                forall|ck: ClientKey, r: int|
                    #![trigger key_pair(ck, *server_key), keys[r]]
                    key_pair(ck, *server_key) && 0 <= r <= i ==> keys[r].block(ck) == aes::round_key(
                        self.block(ck),
                        r as nat,
                    ),
            decreases 10 - i,
        {
            let mut key = keys[i].clone();
            proof {
                assert forall|ck: ClientKey| #[trigger] key.block(ck) == keys[i as int].block(ck) by {
                    assert(key.cells(ck) =~= keys[i as int].cells(ck));
                }
                assert(keys[i as int].valid(*server_key));
                assert(RCON[i as int] == aes::rcon(i + 1));
            }
            key.generate_next_key_with(&RCON[i], &tables, server_key);
            keys.push(key);
            i += 1;
        }
        to_array(keys)
    }
}

/// The S-box applied to the four bytes of a word.
pub fn sub_word(word: &[u8; 4]) -> (r: [u8; 4])
    ensures
        forall|i: int| 0 <= i < 4 ==> r[i] == sbox(word[i]),
{
    [
        S_BOX_DATA[word[0] as usize],
        S_BOX_DATA[word[1] as usize],
        S_BOX_DATA[word[2] as usize],
        S_BOX_DATA[word[3] as usize],
    ]
}

/// The word turned to the left by one byte.
pub fn rot_word(word: &[u8; 4]) -> (r: [u8; 4])
    ensures
        r[0] == word[1],
        r[1] == word[2],
        r[2] == word[3],
        r[3] == word[0],
{
    [word[1], word[2], word[3], word[0]]
}

/// The eleven round keys of AES-128, expanded in the clear from `key`.
pub fn key_expansion_clear(key: &[u8; 16]) -> (round_keys: [[u8; 16]; 11])
    ensures
        forall|r: int| 0 <= r < 11 ==> (#[trigger] round_keys[r])@ == aes::round_key(key@, r as nat),
{
    let mut round_keys: [[u8; 16]; 11] = [[0u8; 16]; 11];
    round_keys[0] = *key;
    let mut round: usize = 1;
    while round <= 10
        invariant
            1 <= round <= 11,
            forall|r: int| 0 <= r < round ==> (#[trigger] round_keys[r])@ == aes::round_key(key@, r as nat),
        decreases 11 - round,
    {
        let previous: [u8; 16] = round_keys[round - 1];
        let turned = rot_word(&[previous[12], previous[13], previous[14], previous[15]]);
        let mut temp = sub_word(&turned);
        temp[0] = temp[0] ^ RCON[round - 1];
        let mut next: [u8; 16] = [0u8; 16];
        let mut i: usize = 0;
        proof {
            assert(RCON[round - 1] == aes::rcon(round as int));
            assert(temp@ =~= aes::schedule_word(previous@, aes::rcon(round as int)));
        }
        while i < 4
            invariant
                i <= 4,
                1 <= round <= 10,
                temp@ == aes::schedule_word(previous@, aes::rcon(round as int)),
                forall|j: int|
                    0 <= j < i ==> #[trigger] next[j] == aes::next_key_byte(previous@, aes::rcon(round as int), j),
            decreases 4 - i,
        {
            next[i] = previous[i] ^ temp[i];
            i += 1;
        }
        while i < 16
            invariant
                4 <= i <= 16,
                1 <= round <= 10,
                forall|j: int|
                    0 <= j < i ==> #[trigger] next[j] == aes::next_key_byte(previous@, aes::rcon(round as int), j),
            decreases 16 - i,
        {
            next[i] = previous[i] ^ next[i - 4];
            i += 1;
        }
        proof {
            assert(next@ =~= aes::next_round_key(previous@, aes::rcon(round as int)));
            assert(previous@ == aes::round_key(key@, (round - 1) as nat));
        }
        round_keys[round] = next;
        round += 1;
    }
    round_keys
}


/// The eleven encrypted round keys of `key`, by either way: expanded in the
/// clear and then encrypted round key by round key, or encrypted and then
/// expanded on encrypted bytes. Both ways give ciphertexts of the same
/// round keys.
pub fn key_expansion(
    key: &[u8; 16],
    key_expansion_offline: bool,
    server_key: &ServerKey,
    client_key: &ClientKey,
) -> (keys: [Key; 11])
    requires
        key_pair(*client_key, *server_key),
    ensures
        forall|r: int| 0 <= r < 11 ==> (#[trigger] keys[r]).valid(*server_key),
        forall|r: int| 0 <= r < 11 ==> (#[trigger] keys[r]).block(*client_key) == aes::round_key(key@, r as nat),
{
    if key_expansion_offline {
        let clear_keys = key_expansion_clear(key);
        let mut keys: Vec<Key> = Vec::with_capacity(11);
        let mut i: usize = 0;
        while i < 11
            invariant
                i <= 11,
                keys.len() == i,
                key_pair(*client_key, *server_key),
                forall|r: int| 0 <= r < 11 ==> (#[trigger] clear_keys[r])@ == aes::round_key(key@, r as nat),
                forall|r: int| 0 <= r < i ==> (#[trigger] keys[r]).valid(*server_key),
                forall|r: int|
                    0 <= r < i ==> (#[trigger] keys[r]).block(*client_key) == aes::round_key(key@, r as nat),
            decreases 11 - i,
        {
            keys.push(Key::from_u8_enc(&clear_keys[i], client_key));
            i += 1;
        }
        to_array(keys)
    } else {
        let curr_key = Key::from_u8_enc(key, client_key);
        let keys = curr_key.generate_round_keys(server_key);
        proof {
            assert forall|r: int| 0 <= r < 11 implies (#[trigger] keys[r]).block(*client_key) == aes::round_key(
                key@,
                r as nat,
            ) by {
                assert(key_pair(*client_key, *server_key));
            }
        }
        keys
    }
}

} // verus!
